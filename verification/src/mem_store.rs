//! The in-memory store: id-keyed records of tasks and todos.
//!
//! Tasks get dense ids 1, 2, 3, ...; todos get increasing ids that are never
//! reused even after a todo is deleted.  The store's well-formedness carries
//! the central invariant: every task has at most one open todo.

use vstd::prelude::*;
use crate::data::{
    Task, TaskId, TaskV, Todo, TodoCompleted, TodoDate, TodoId, TodoV, date_in_range,
    due_in_range,
};

verus! {

/// The errors the store and the engine report; all are recoverable for the
/// caller in the sense of "report and stop", none corrupts state.
#[derive(Clone, Copy, PartialEq, Eq, Debug, Structural)]
pub enum EngineError {
    /// A todo id unknown to the store.
    TodoNotFound,
    /// A task id unknown to the store.
    TaskNotFound,
    /// The operation does not support paused tasks.
    TaskPaused,
    /// The task is unknown or has no open todo.
    TaskNotFoundOrPaused,
    /// A computed due instant left the representable range.
    DueOutOfRange,
}

/// Mathematical image of a `MemStore`.
pub ghost struct StoreV {
    pub tasks: Seq<TaskV>,
    pub todos: Seq<TodoV>,
    pub last_task_id: u64,
    pub last_todo_id: u64,
}

/// Index of the todo with the given id, or -1 if there is none.
pub open spec fn idx_of(s: Seq<TodoV>, id: u64) -> int
    decreases s.len(),
{
    if s.len() == 0 {
        -1
    } else if s[0].id == id {
        0
    } else {
        let r = idx_of(s.drop_first(), id);
        if r == -1 {
            -1
        } else {
            r + 1
        }
    }
}

/// Index of the first open todo of the given task, or -1 if there is none.
pub open spec fn open_idx(s: Seq<TodoV>, task: u64) -> int
    decreases s.len(),
{
    if s.len() == 0 {
        -1
    } else if s[0].task == task && s[0].completed is None {
        0
    } else {
        let r = open_idx(s.drop_first(), task);
        if r == -1 {
            -1
        } else {
            r + 1
        }
    }
}

/// What `idx_of` finds: the first position holding the id, if any.
pub proof fn lemma_idx_of(s: Seq<TodoV>, id: u64)
    ensures
        idx_of(s, id) == -1 ==> forall|k: int|
            0 <= k < s.len() ==> (#[trigger] s[k]).id != id,
        idx_of(s, id) != -1 ==> {
            let r = idx_of(s, id);
            &&& 0 <= r < s.len()
            &&& s[r].id == id
            &&& forall|k: int| 0 <= k < r ==> (#[trigger] s[k]).id != id
        },
    decreases s.len(),
{
    if s.len() > 0 && s[0].id != id {
        lemma_idx_of(s.drop_first(), id);
        let r0 = idx_of(s.drop_first(), id);
        if r0 == -1 {
            assert forall|k: int| 0 <= k < s.len() implies (#[trigger] s[k]).id != id by {
                if k > 0 {
                    assert(s[k] == s.drop_first()[k - 1]);
                }
            }
        } else {
            assert(s[r0 + 1] == s.drop_first()[r0]);
            assert forall|k: int| 0 <= k < r0 + 1 implies (#[trigger] s[k]).id != id by {
                if k > 0 {
                    assert(s[k] == s.drop_first()[k - 1]);
                }
            }
        }
    }
}

/// What `open_idx` finds: the first open todo of the task, if any.
pub proof fn lemma_open_idx(s: Seq<TodoV>, task: u64)
    ensures
        open_idx(s, task) == -1 ==> forall|k: int|
            0 <= k < s.len() ==> !((#[trigger] s[k]).task == task && s[k].completed is None),
        open_idx(s, task) != -1 ==> {
            let r = open_idx(s, task);
            &&& 0 <= r < s.len()
            &&& s[r].task == task
            &&& s[r].completed is None
            &&& forall|k: int|
                0 <= k < r ==> !((#[trigger] s[k]).task == task && s[k].completed is None)
        },
    decreases s.len(),
{
    if s.len() > 0 && !(s[0].task == task && s[0].completed is None) {
        lemma_open_idx(s.drop_first(), task);
        let r0 = open_idx(s.drop_first(), task);
        if r0 == -1 {
            assert forall|k: int|
                0 <= k < s.len() implies !((#[trigger] s[k]).task == task
                    && s[k].completed is None) by {
                if k > 0 {
                    assert(s[k] == s.drop_first()[k - 1]);
                }
            }
        } else {
            assert(s[r0 + 1] == s.drop_first()[r0]);
            assert forall|k: int|
                0 <= k < r0 + 1 implies !((#[trigger] s[k]).task == task
                    && s[k].completed is None) by {
                if k > 0 {
                    assert(s[k] == s.drop_first()[k - 1]);
                }
            }
        }
    }
}

/// The task id a filter argument names, if any.
pub open spec fn opt_task_filter(o: Option<&TaskId>) -> Option<u64> {
    match o {
        Some(id) => Some(id.0),
        None => None,
    }
}

/// Whether a todo passes the optional task and completion filters.
pub open spec fn matches_filters(t: TodoV, tf: Option<u64>, cf: Option<bool>) -> bool {
    &&& match tf {
        Some(task) => t.task == task,
        None => true,
    }
    &&& match cf {
        Some(completed) => completed == (t.completed is Some),
        None => true,
    }
}

impl StoreV {
    /// The store before anything was created.
    pub open spec fn empty() -> StoreV {
        StoreV {
            tasks: Seq::empty(),
            todos: Seq::empty(),
            last_task_id: 0,
            last_todo_id: 0,
        }
    }

    /// The task with the given id exists (ids are dense from 1).
    pub open spec fn has_task(self, id: u64) -> bool {
        1 <= id <= self.tasks.len()
    }

    /// The task record for an existing id.
    pub open spec fn task_at(self, id: u64) -> TaskV
        recommends
            self.has_task(id),
    {
        self.tasks[id - 1]
    }

    /// Well-formedness: dense task ids, increasing todo ids below the
    /// allocator mark, todos pointing at existing tasks, instants in range,
    /// and at most one open todo per task.
    pub open spec fn wf(self) -> bool {
        &&& self.last_task_id == self.tasks.len()
        &&& forall|i: int|
            0 <= i < self.tasks.len() ==> (#[trigger] self.tasks[i]).id == i + 1
        &&& forall|i: int|
            0 <= i < self.todos.len() ==> 1 <= (#[trigger] self.todos[i]).id
                <= self.last_todo_id
        &&& forall|i: int, j: int|
            0 <= i < j < self.todos.len() ==> (#[trigger] self.todos[i]).id
                < (#[trigger] self.todos[j]).id
        &&& forall|i: int|
            0 <= i < self.todos.len() ==> 1 <= (#[trigger] self.todos[i]).task
                <= self.tasks.len()
        &&& forall|i: int, j: int|
            0 <= i < j < self.todos.len() && (#[trigger] self.todos[i]).task
                == (#[trigger] self.todos[j]).task ==> !(self.todos[i].completed is None
                && self.todos[j].completed is None)
        &&& forall|i: int|
            0 <= i < self.todos.len() ==> due_in_range((#[trigger] self.todos[i]).due)
        &&& forall|i: int|
            0 <= i < self.todos.len() ==> match (#[trigger] self.todos[i]).completed {
                Some(d) => date_in_range(d),
                None => true,
            }
    }

    /// The number of open todos a task has is 0 or 1, never more: any two
    /// open positions for the same task coincide.
    pub proof fn lemma_at_most_one_open(self, task: u64, i: int, j: int)
        requires
            self.wf(),
            0 <= i < self.todos.len(),
            0 <= j < self.todos.len(),
            self.todos[i].task == task,
            self.todos[j].task == task,
            self.todos[i].completed is None,
            self.todos[j].completed is None,
        ensures
            i == j,
    {
    }
}

/// A direct realization of the storage contract backed by vectors, ordered
/// by id.
#[derive(Debug)]
pub struct MemStore {
    tasks: Vec<Task>,
    todos: Vec<Todo>,
    last_task_id: TaskId,
    last_todo_id: TodoId,
}

impl View for MemStore {
    type V = StoreV;

    closed spec fn view(&self) -> StoreV {
        StoreV {
            tasks: self.tasks@.map_values(|t: Task| t@),
            todos: self.todos@.map_values(|t: Todo| t@),
            last_task_id: self.last_task_id.0,
            last_todo_id: self.last_todo_id.0,
        }
    }
}

impl Default for MemStore {
    fn default() -> (s: Self)
        ensures
            s@ == StoreV::empty(),
            s@.wf(),
    {
        let s = MemStore {
            last_task_id: TaskId(0),
            tasks: Vec::new(),
            last_todo_id: TodoId(0),
            todos: Vec::new(),
        };
        proof {
            assert(s@.tasks =~= Seq::<TaskV>::empty());
            assert(s@.todos =~= Seq::<TodoV>::empty());
        }
        s
    }
}

impl MemStore {
    #[must_use]
    pub fn new() -> (s: Self)
        ensures
            s@ == StoreV::empty(),
            s@.wf(),
    {
        Self::default()
    }

    /// The id allocation marks and the number of stored todos.
    pub fn counts(&self) -> (r: (u64, u64, usize))
        ensures
            r.0 == self@.last_task_id,
            r.1 == self@.last_todo_id,
            r.2 == self@.todos.len(),
    {
        (self.last_task_id.0, self.last_todo_id.0, self.todos.len())
    }

    /// Allocates the next task id and stores the record under it.
    pub fn create_task(&mut self, title: String) -> (r: TaskId)
        requires
            old(self)@.wf(),
            old(self)@.tasks.len() < u64::MAX,
        ensures
            final(self)@.wf(),
            r.0 == old(self)@.tasks.len() + 1,
            final(self)@.tasks == old(self)@.tasks.push(
                TaskV { id: r.0, title: title@ },
            ),
            final(self)@.todos == old(self)@.todos,
            final(self)@.last_task_id == r.0,
            final(self)@.last_todo_id == old(self)@.last_todo_id,
    {
        let id = TaskId(self.last_task_id.0 + 1);
        self.last_task_id = id;
        let task = Task { id, title };
        let ghost pre = self.tasks@.map_values(|t: Task| t@);
        self.tasks.push(task);
        proof {
            assert(self.tasks@.map_values(|t: Task| t@) =~= pre.push(
                TaskV { id: id.0, title: self.tasks@.last().title@ },
            ));
        }
        id
    }

    /// Allocates the next todo id for the given task with the given due
    /// instant and no completion.  The caller must uphold the open-todo
    /// invariant: the task may not already have an open todo.
    pub fn create_todo(&mut self, task: &TaskId, due: TodoDate) -> (r: TodoId)
        requires
            old(self)@.wf(),
            old(self)@.has_task(task.0),
            open_idx(old(self)@.todos, task.0) == -1,
            due_in_range(due.nanos as int),
            old(self)@.last_todo_id < u64::MAX,
        ensures
            final(self)@.wf(),
            r.0 == old(self)@.last_todo_id + 1,
            final(self)@.todos == old(self)@.todos.push(
                TodoV { id: r.0, task: task.0, due: due.nanos as int, completed: None },
            ),
            final(self)@.tasks == old(self)@.tasks,
            final(self)@.last_task_id == old(self)@.last_task_id,
            final(self)@.last_todo_id == r.0,
    {
        proof {
            lemma_open_idx(old(self)@.todos, task.0);
        }
        let id = TodoId(self.last_todo_id.0 + 1);
        self.last_todo_id = id;
        let todo = Todo { id, task: *task, completed: None, due };
        let ghost pre = self.todos@.map_values(|t: Todo| t@);
        self.todos.push(todo);
        proof {
            assert(self.todos@.map_values(|t: Todo| t@) =~= pre.push(
                TodoV { id: id.0, task: task.0, due: due.nanos as int, completed: None },
            ));
        }
        id
    }

    /// Position of the todo with the given id in the vector, if any.
    fn position_of(&self, todo: &TodoId) -> (r: Option<usize>)
        ensures
            match r {
                Some(i) => idx_of(self@.todos, todo.0) == i as int && i < self@.todos.len(),
                None => idx_of(self@.todos, todo.0) == -1,
            },
    {
        let n = self.todos.len();
        for i in 0..n
            invariant
                n == self.todos.len(),
                forall|k: int| 0 <= k < i ==> (#[trigger] self@.todos[k]).id != todo.0,
        {
            if self.todos[i].id.0 == todo.0 {
                proof {
                    lemma_idx_of_is(self@.todos, todo.0, i as int);
                }
                return Some(i);
            }
        }
        proof {
            lemma_idx_of(self@.todos, todo.0);
        }
        None
    }

    /// Removes a todo outright (used to pause a task).
    pub fn delete_todo(&mut self, todo: &TodoId) -> (r: Result<(), EngineError>)
        requires
            old(self)@.wf(),
        ensures
            final(self)@.wf(),
            final(self)@.tasks == old(self)@.tasks,
            final(self)@.last_task_id == old(self)@.last_task_id,
            final(self)@.last_todo_id == old(self)@.last_todo_id,
            match r {
                Ok(()) => {
                    let i = idx_of(old(self)@.todos, todo.0);
                    &&& i != -1
                    &&& final(self)@.todos == old(self)@.todos.remove(i)
                },
                Err(e) => {
                    &&& e == EngineError::TodoNotFound
                    &&& idx_of(old(self)@.todos, todo.0) == -1
                    &&& final(self)@ == old(self)@
                },
            },
    {
        match self.position_of(todo) {
            Some(i) => {
                let ghost pre = self.todos@.map_values(|t: Todo| t@);
                self.todos.remove(i);
                proof {
                    assert(self.todos@.map_values(|t: Todo| t@) =~= pre.remove(i as int));
                }
                Ok(())
            },
            None => Err(EngineError::TodoNotFound),
        }
    }

    /// Looks a task up by id.
    pub fn get_task(&self, task: &TaskId) -> (r: Option<Task>)
        requires
            self@.wf(),
        ensures
            match r {
                Some(t) => self@.has_task(task.0) && t@ == self@.task_at(task.0),
                None => !self@.has_task(task.0),
            },
    {
        if task.0 >= 1 && task.0 <= self.tasks.len() as u64 {
            let i = (task.0 - 1) as usize;
            Some(self.tasks[i].clone())
        } else {
            None
        }
    }

    /// Looks a todo up by id.
    pub fn get_todo(&self, todo: &TodoId) -> (r: Option<Todo>)
        ensures
            match r {
                Some(t) => {
                    let i = idx_of(self@.todos, todo.0);
                    i != -1 && t@ == self@.todos[i]
                },
                None => idx_of(self@.todos, todo.0) == -1,
            },
    {
        match self.position_of(todo) {
            Some(i) => Some(self.todos[i].clone()),
            None => None,
        }
    }

    /// Sets or clears the completion record of an existing todo.  Clearing
    /// reopens the todo, so the caller must uphold the open-todo invariant:
    /// clearing a completed todo is only allowed while its task has no open
    /// todo.
    pub fn set_todo_completed(&mut self, id: &TodoId, completed: Option<TodoCompleted>) -> (r:
        Result<(), EngineError>)
        requires
            old(self)@.wf(),
            match completed {
                Some(c) => date_in_range(c.date.nanos as int),
                None => ({
                    let i = idx_of(old(self)@.todos, id.0);
                    i != -1 && old(self)@.todos[i].completed is Some ==> open_idx(
                        old(self)@.todos,
                        old(self)@.todos[i].task,
                    ) == -1
                }),
            },
        ensures
            final(self)@.wf(),
            final(self)@.tasks == old(self)@.tasks,
            final(self)@.last_task_id == old(self)@.last_task_id,
            final(self)@.last_todo_id == old(self)@.last_todo_id,
            match r {
                Ok(()) => {
                    let i = idx_of(old(self)@.todos, id.0);
                    &&& i != -1
                    &&& final(self)@.todos == old(self)@.todos.update(
                        i,
                        TodoV {
                            completed: match completed {
                                Some(c) => Some(c.date.nanos as int),
                                None => None,
                            },
                            ..old(self)@.todos[i]
                        },
                    )
                },
                Err(e) => {
                    &&& e == EngineError::TodoNotFound
                    &&& idx_of(old(self)@.todos, id.0) == -1
                    &&& final(self)@ == old(self)@
                },
            },
    {
        match self.position_of(id) {
            Some(i) => {
                let ghost pre = self.todos@.map_values(|t: Todo| t@);
                let mut t = self.todos[i].clone();
                t.completed = completed;
                self.todos.set(i, t);
                proof {
                    assert(self.todos@.map_values(|t: Todo| t@) =~= pre.update(
                        i as int,
                        TodoV {
                            completed: match completed {
                                Some(c) => Some(c.date.nanos as int),
                                None => None,
                            },
                            ..pre[i as int]
                        },
                    ));
                    if completed is None && pre[i as int].completed is Some {
                        lemma_open_idx(pre, pre[i as int].task);
                    }
                }
                Ok(())
            },
            None => Err(EngineError::TodoNotFound),
        }
    }

    /// Updates the due instant of an existing todo.
    pub fn set_todo_due(&mut self, id: &TodoId, due: TodoDate) -> (r: Result<(), EngineError>)
        requires
            old(self)@.wf(),
            due_in_range(due.nanos as int),
        ensures
            final(self)@.wf(),
            final(self)@.tasks == old(self)@.tasks,
            final(self)@.last_task_id == old(self)@.last_task_id,
            final(self)@.last_todo_id == old(self)@.last_todo_id,
            match r {
                Ok(()) => {
                    let i = idx_of(old(self)@.todos, id.0);
                    &&& i != -1
                    &&& final(self)@.todos == old(self)@.todos.update(
                        i,
                        TodoV { due: due.nanos as int, ..old(self)@.todos[i] },
                    )
                },
                Err(e) => {
                    &&& e == EngineError::TodoNotFound
                    &&& idx_of(old(self)@.todos, id.0) == -1
                    &&& final(self)@ == old(self)@
                },
            },
    {
        match self.position_of(id) {
            Some(i) => {
                let ghost pre = self.todos@.map_values(|t: Todo| t@);
                let mut t = self.todos[i].clone();
                t.due = due;
                self.todos.set(i, t);
                proof {
                    assert(self.todos@.map_values(|t: Todo| t@) =~= pre.update(
                        i as int,
                        TodoV { due: due.nanos as int, ..pre[i as int] },
                    ));
                }
                Ok(())
            },
            None => Err(EngineError::TodoNotFound),
        }
    }

    /// All todos passing the optional task and completion filters, in id
    /// order.
    pub fn get_todos(&self, task_id_filter: Option<&TaskId>, completed_filter: Option<bool>)
        -> (r: Vec<Todo>)
        ensures
            r@.map_values(|t: Todo| t@) == self@.todos.filter(
                |t: TodoV| matches_filters(t, opt_task_filter(task_id_filter), completed_filter),
            ),
    {
        let mut out: Vec<Todo> = Vec::new();
        proof {
            assert(out@.map_values(|t: Todo| t@) =~= Seq::<TodoV>::empty());
            assert(self@.todos.take(0) =~= Seq::<TodoV>::empty());
            reveal(Seq::filter);
        }
        let n = self.todos.len();
        for i in 0..n
            invariant
                n == self.todos.len(),
                out@.map_values(|t: Todo| t@) == self@.todos.take(i as int).filter(
                    |t: TodoV| matches_filters(
                        t,
                        opt_task_filter(task_id_filter),
                        completed_filter,
                    ),
                ),
        {
            let ghost pred = |t: TodoV| matches_filters(
                t,
                opt_task_filter(task_id_filter),
                completed_filter,
            );
            let t = &self.todos[i];
            let keep = (match task_id_filter {
                Some(id) => t.task.0 == id.0,
                None => true,
            }) && (match completed_filter {
                Some(completed) => completed == t.completed.is_some(),
                None => true,
            });
            let ghost pre_out = out@.map_values(|t: Todo| t@);
            if keep {
                out.push(t.clone());
            }
            proof {
                reveal(Seq::filter);
                assert(t@ == self@.todos[i as int]);
                assert(keep == pred(self@.todos[i as int]));
                assert(self@.todos.take(i + 1).drop_last() =~= self@.todos.take(i as int));
                assert(self@.todos.take(i + 1).last() == self@.todos[i as int]);
                if keep {
                    assert(out@.map_values(|t: Todo| t@) =~= pre_out.push(
                        self@.todos[i as int],
                    ));
                    assert(self@.todos.take(i + 1).filter(pred) =~= self@.todos.take(
                        i as int,
                    ).filter(pred).push(self@.todos[i as int]));
                } else {
                    assert(self@.todos.take(i + 1).filter(pred) =~= self@.todos.take(
                        i as int,
                    ).filter(pred));
                }
            }
        }
        proof {
            assert(self@.todos.take(n as int) =~= self@.todos);
        }
        out
    }

    /// The unique open todo of a task, if the task has one.
    pub fn find_open_todo(&self, task: &TaskId) -> (r: Option<Todo>)
        ensures
            match r {
                Some(t) => {
                    let i = open_idx(self@.todos, task.0);
                    i != -1 && t@ == self@.todos[i]
                },
                None => open_idx(self@.todos, task.0) == -1,
            },
    {
        let n = self.todos.len();
        for i in 0..n
            invariant
                n == self.todos.len(),
                forall|k: int|
                    0 <= k < i ==> !((#[trigger] self@.todos[k]).task == task.0
                        && self@.todos[k].completed is None),
        {
            if self.todos[i].task.0 == task.0 && self.todos[i].completed.is_none() {
                proof {
                    lemma_open_idx_is(self@.todos, task.0, i as int);
                }
                return Some(self.todos[i].clone());
            }
        }
        proof {
            lemma_open_idx(self@.todos, task.0);
        }
        None
    }

    /// All tasks, in id order.
    pub fn get_tasks(&self) -> (r: Vec<Task>)
        ensures
            r@.map_values(|t: Task| t@) == self@.tasks,
    {
        let mut out: Vec<Task> = Vec::new();
        let n = self.tasks.len();
        for i in 0..n
            invariant
                n == self.tasks.len(),
                out@.map_values(|t: Task| t@) == self@.tasks.take(i as int),
        {
            let ghost pre_out = out@.map_values(|t: Task| t@);
            out.push(self.tasks[i].clone());
            proof {
                assert(out@.map_values(|t: Task| t@) =~= pre_out.push(self@.tasks[i as int]));
                assert(self@.tasks.take(i + 1) =~= self@.tasks.take(i as int).push(
                    self@.tasks[i as int],
                ));
            }
        }
        proof {
            assert(self@.tasks.take(n as int) =~= self@.tasks);
        }
        out
    }
}

/// If the first `i` positions hold no match and position `i` does, then
/// `idx_of` returns `i`.
pub proof fn lemma_idx_of_is(s: Seq<TodoV>, id: u64, i: int)
    requires
        0 <= i < s.len(),
        s[i].id == id,
        forall|k: int| 0 <= k < i ==> (#[trigger] s[k]).id != id,
    ensures
        idx_of(s, id) == i,
    decreases s.len(),
{
    if i > 0 {
        assert(forall|k: int|
            1 <= k < s.len() ==> s[k] == (#[trigger] s.drop_first()[k - 1]));
        lemma_idx_of_is(s.drop_first(), id, i - 1);
    }
}

/// If the first `i` positions hold no open todo of the task and position `i`
/// does, then `open_idx` returns `i`.
pub proof fn lemma_open_idx_is(s: Seq<TodoV>, task: u64, i: int)
    requires
        0 <= i < s.len(),
        s[i].task == task,
        s[i].completed is None,
        forall|k: int| 0 <= k < i ==> !((#[trigger] s[k]).task == task
            && s[k].completed is None),
    ensures
        open_idx(s, task) == i,
    decreases s.len(),
{
    if i > 0 {
        assert(forall|k: int|
            1 <= k < s.len() ==> s[k] == (#[trigger] s.drop_first()[k - 1]));
        lemma_open_idx_is(s.drop_first(), task, i - 1);
    }
}

} // verus!
