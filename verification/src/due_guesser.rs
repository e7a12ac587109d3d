//! The due-date predictor: turns a task's completion history into "how long
//! until the next occurrence is due".
//!
//! Per task it keeps either a fixed interval given at creation, or a running
//! average of the gaps between consecutive completions, capped at 10
//! effective samples.  The first observed gap discards a fixed interval;
//! from then on each new gap is folded in by re-weighting the previous
//! average.  Pausing a task clears its "last completed" anchor but keeps the
//! learned interval.

use vstd::prelude::*;
use crate::clock::now_nanos;
use crate::data::{
    DEFAULT_PERIOD_NANOS, DIFF_ABS_MAX, DUE_ABS_MAX, FIXED_SPAN_MAX, NANOS_PER_DAY, Span,
    TaskId, TodoCompleted, TodoDate, TodoId, clock_in_range, date_in_range, div_trunc,
    div_trunc_i128, due_in_range, fixed_span_in_range, lemma_div_trunc_bound,
};
use crate::mem_store::{MemStore, StoreV, idx_of};

verus! {

/// What is known about a task's period: a learned running average
/// (re-weighted sum and effective sample count) or a fixed interval.
#[derive(Clone, Copy, Debug, PartialEq, Eq, Structural)]
pub enum DueIn {
    Calculated(Span, u32),
    Fixed(Span),
}

/// Per-task predictor state.
#[derive(Clone, Copy, Debug)]
pub struct DueInfo {
    pub due_in: Option<DueIn>,
    pub last_completed: Option<TodoDate>,
}

/// Bounds that keep the predictor's arithmetic inside `i128`.
pub open spec fn due_in_wf(d: DueIn) -> bool {
    match d {
        DueIn::Calculated(sum, count) => 1 <= count <= 10 && -(count as int) * (
        DIFF_ABS_MAX as int) <= sum.nanos as int <= (count as int) * (DIFF_ABS_MAX as int),
        DueIn::Fixed(v) => fixed_span_in_range(v.nanos as int),
    }
}

pub open spec fn info_wf(i: DueInfo) -> bool {
    &&& match i.due_in {
        Some(d) => due_in_wf(d),
        None => true,
    }
    &&& match i.last_completed {
        Some(t) => date_in_range(t.nanos as int),
        None => true,
    }
}

/// The interval reported for a predictor state: the running average if one
/// is being learned, the fixed interval if one was given, the default period
/// otherwise.
pub open spec fn interval_of(v: Option<DueIn>) -> int {
    match v {
        Some(DueIn::Calculated(sum, count)) => div_trunc(sum.nanos as int, count as int),
        Some(DueIn::Fixed(d)) => d.nanos as int,
        None => DEFAULT_PERIOD_NANOS as int,
    }
}

/// Folding one observed gap into the state: a running average is re-weighted
/// to `new_count - 1` units and the gap added; anything else starts a fresh
/// single-sample average, discarding a fixed interval.
pub open spec fn added_due_in(v: Option<DueIn>, diff: int) -> DueIn {
    match v {
        Some(DueIn::Calculated(sum, count)) => {
            let nc: int = if count + 1 <= 10 {
                count + 1
            } else {
                10
            };
            DueIn::Calculated(
                Span {
                    nanos: (diff + div_trunc(sum.nanos as int, count as int) * (nc - 1)) as i128,
                },
                nc as u32,
            )
        },
        _ => DueIn::Calculated(Span { nanos: diff as i128 }, 1),
    }
}

/// The predictor state after a completion at `completed`: if a previous
/// completion is on record, its gap is folded in; either way the anchor
/// moves to `completed`.
pub open spec fn completed_info(info: DueInfo, completed: TodoDate) -> DueInfo {
    match info.last_completed {
        Some(last) => DueInfo {
            due_in: Some(added_due_in(info.due_in, completed.nanos - last.nanos)),
            last_completed: Some(completed),
        },
        None => DueInfo { due_in: info.due_in, last_completed: Some(completed) },
    }
}

/// The due instant guessed for a task: its last completion (or `now` if none
/// is known) plus the reported interval.
pub open spec fn spec_guess_due(m: Map<u64, DueInfo>, task: u64, now: int) -> int {
    if m.contains_key(task) {
        let i = m[task];
        (match i.last_completed {
            Some(t) => t.nanos as int,
            None => now,
        }) + interval_of(i.due_in)
    } else {
        now + DEFAULT_PERIOD_NANOS as int
    }
}

/// The postponed due instant for a todo: anchored at the later of `now` and
/// the current due, pushed forward by a day or a fifth of the interval,
/// whichever is larger.
pub open spec fn spec_guess_later(m: Map<u64, DueInfo>, store: StoreV, todo: u64, now: int)
    -> int {
    let t = store.todos[idx_of(store.todos, todo)];
    let interval = interval_of(
        if m.contains_key(t.task) {
            m[t.task].due_in
        } else {
            None
        },
    );
    let anchor: int = if now >= t.due {
        now
    } else {
        t.due
    };
    let push: int = if NANOS_PER_DAY as int >= div_trunc(interval, 5) {
        NANOS_PER_DAY as int
    } else {
        div_trunc(interval, 5)
    };
    anchor + push
}

/// The reported interval of a well-formed state stays far below the i128
/// limits.
pub proof fn lemma_interval_bound(v: Option<DueIn>)
    requires
        match v {
            Some(d) => due_in_wf(d),
            None => true,
        },
    ensures
        -(FIXED_SPAN_MAX as int) <= interval_of(v) <= FIXED_SPAN_MAX as int,
{
    match v {
        Some(DueIn::Calculated(sum, count)) => {
            lemma_div_trunc_bound(
                sum.nanos as int,
                count as int,
                (count as int) * (DIFF_ABS_MAX as int),
            );
        },
        _ => {},
    }
}

/// Index of the entry for the given task, or -1 if there is none.
pub open spec fn key_idx(s: Seq<(TaskId, DueInfo)>, k: u64) -> int
    decreases s.len(),
{
    if s.len() == 0 {
        -1
    } else if s[0].0.0 == k {
        0
    } else {
        let r = key_idx(s.drop_first(), k);
        if r == -1 {
            -1
        } else {
            r + 1
        }
    }
}

/// What `key_idx` finds: the first entry with the key, if any.
pub proof fn lemma_key_idx(s: Seq<(TaskId, DueInfo)>, k: u64)
    ensures
        key_idx(s, k) == -1 ==> forall|j: int|
            0 <= j < s.len() ==> (#[trigger] s[j]).0.0 != k,
        key_idx(s, k) != -1 ==> {
            let r = key_idx(s, k);
            &&& 0 <= r < s.len()
            &&& s[r].0.0 == k
            &&& forall|j: int| 0 <= j < r ==> (#[trigger] s[j]).0.0 != k
        },
    decreases s.len(),
{
    if s.len() > 0 && s[0].0.0 != k {
        lemma_key_idx(s.drop_first(), k);
        let r0 = key_idx(s.drop_first(), k);
        if r0 == -1 {
            assert forall|j: int| 0 <= j < s.len() implies (#[trigger] s[j]).0.0 != k by {
                if j > 0 {
                    assert(s[j] == s.drop_first()[j - 1]);
                }
            }
        } else {
            assert(s[r0 + 1] == s.drop_first()[r0]);
            assert forall|j: int| 0 <= j < r0 + 1 implies (#[trigger] s[j]).0.0 != k by {
                if j > 0 {
                    assert(s[j] == s.drop_first()[j - 1]);
                }
            }
        }
    }
}

/// If the first `i` entries miss the key and entry `i` has it, `key_idx`
/// returns `i`.
pub proof fn lemma_key_idx_is(s: Seq<(TaskId, DueInfo)>, k: u64, i: int)
    requires
        0 <= i < s.len(),
        s[i].0.0 == k,
        forall|j: int| 0 <= j < i ==> (#[trigger] s[j]).0.0 != k,
    ensures
        key_idx(s, k) == i,
    decreases s.len(),
{
    if i > 0 {
        assert(forall|j: int|
            1 <= j < s.len() ==> s[j] == (#[trigger] s.drop_first()[j - 1]));
        lemma_key_idx_is(s.drop_first(), k, i - 1);
    }
}

/// The predictor: per-task state, keyed by task id.
#[derive(Debug)]
pub struct DueGuesser {
    info: Vec<(TaskId, DueInfo)>,
}

impl View for DueGuesser {
    type V = Map<u64, DueInfo>;

    closed spec fn view(&self) -> Map<u64, DueInfo> {
        Map::new(
            |k: u64| key_idx(self.info@, k) != -1,
            |k: u64| self.info@[key_idx(self.info@, k)].1,
        )
    }
}

impl DueGuesser {
    /// Entries have distinct keys and hold well-formed state.
    pub closed spec fn wf(&self) -> bool {
        &&& forall|i: int, j: int|
            0 <= i < j < self.info@.len() ==> (#[trigger] self.info@[i]).0.0
                != (#[trigger] self.info@[j]).0.0
        &&& forall|i: int| 0 <= i < self.info@.len() ==> info_wf((#[trigger] self.info@[i]).1)
    }

    /// Every state in a well-formed predictor is well-formed.
    pub proof fn lemma_wf_entry(&self, k: u64)
        requires
            self.wf(),
            self@.contains_key(k),
        ensures
            info_wf(self@[k]),
    {
        lemma_key_idx(self.info@, k);
    }

    pub fn new() -> (r: Self)
        ensures
            r.wf(),
            r@ =~= Map::<u64, DueInfo>::empty(),
    {
        let r = DueGuesser { info: Vec::new() };
        proof {
            assert forall|k: u64| !(r@.dom().contains(k)) by {
                lemma_key_idx(r.info@, k);
            }
        }
        r
    }

    /// Position of the entry for a task, if any.
    fn position_of(&self, k: &TaskId) -> (r: Option<usize>)
        ensures
            match r {
                Some(i) => key_idx(self.info@, k.0) == i as int && i < self.info@.len(),
                None => key_idx(self.info@, k.0) == -1,
            },
    {
        let n = self.info.len();
        for i in 0..n
            invariant
                n == self.info.len(),
                forall|j: int| 0 <= j < i ==> (#[trigger] self.info@[j]).0.0 != k.0,
        {
            if self.info[i].0.0 == k.0 {
                proof {
                    lemma_key_idx_is(self.info@, k.0, i as int);
                }
                return Some(i);
            }
        }
        proof {
            lemma_key_idx(self.info@, k.0);
        }
        None
    }

    /// The state recorded for a task, if any.
    fn lookup(&self, k: &TaskId) -> (r: Option<DueInfo>)
        ensures
            match r {
                Some(v) => self@.contains_key(k.0) && v == self@[k.0],
                None => !self@.contains_key(k.0),
            },
    {
        match self.position_of(k) {
            Some(i) => Some(self.info[i].1),
            None => None,
        }
    }

    /// Sets or replaces the state recorded for a task.
    fn insert_entry(&mut self, k: TaskId, v: DueInfo)
        requires
            old(self).wf(),
            info_wf(v),
        ensures
            final(self).wf(),
            final(self)@ == old(self)@.insert(k.0, v),
    {
        let ghost s_old = self.info@;
        match self.position_of(&k) {
            Some(i) => {
                self.info.set(i, (k, v));
            },
            None => {
                self.info.push((k, v));
            },
        }
        proof {
            let s_new = self.info@;
            lemma_key_idx(s_old, k.0);
            let r_old = key_idx(s_old, k.0);
            if r_old == -1 {
                lemma_key_idx_is(s_new, k.0, s_old.len() as int);
            } else {
                lemma_key_idx_is(s_new, k.0, r_old);
            }
            assert forall|q: u64| q != k.0 implies key_idx(s_new, q) == key_idx(s_old, q)
                && (key_idx(s_old, q) != -1 ==> s_new[key_idx(s_new, q)].1
                == s_old[key_idx(s_old, q)].1) by {
                lemma_key_idx(s_old, q);
                let rq = key_idx(s_old, q);
                if rq == -1 {
                    lemma_key_idx(s_new, q);
                    if key_idx(s_new, q) != -1 {
                        let rn = key_idx(s_new, q);
                        assert(s_new[rn].0.0 == q);
                        assert(false);
                    }
                } else {
                    lemma_key_idx_is(s_new, q, rq);
                }
            }
            assert(self@ =~= old(self)@.insert(k.0, v));
            assert forall|i: int, j: int|
                0 <= i < j < s_new.len() implies (#[trigger] s_new[i]).0.0
                != (#[trigger] s_new[j]).0.0 by {}
        }
    }

    /// Records what is known at creation: a fixed interval if one was given,
    /// nothing otherwise.
    pub fn init_task(&mut self, _store: &MemStore, task_id: &TaskId, due_after: Option<Span>)
        requires
            old(self).wf(),
            match due_after {
                Some(d) => fixed_span_in_range(d.nanos as int),
                None => true,
            },
        ensures
            final(self).wf(),
            final(self)@ == old(self)@.insert(
                task_id.0,
                DueInfo {
                    due_in: match due_after {
                        Some(d) => Some(DueIn::Fixed(d)),
                        None => None,
                    },
                    last_completed: None,
                },
            ),
    {
        let due_in = match due_after {
            Some(d) => Some(DueIn::Fixed(d)),
            None => None,
        };
        self.insert_entry(*task_id, DueInfo { due_in, last_completed: None });
    }

    /// Duplicates the source task's state verbatim (used by cloning).
    pub fn copy_task(&mut self, _store: &MemStore, task_id: &TaskId, other_task_id: &TaskId)
        requires
            old(self).wf(),
            old(self)@.contains_key(other_task_id.0),
        ensures
            final(self).wf(),
            final(self)@ == old(self)@.insert(task_id.0, old(self)@[other_task_id.0]),
    {
        proof {
            self.lemma_wf_entry(other_task_id.0);
        }
        let info = match self.lookup(other_task_id) {
            Some(info) => info,
            None => vstd::pervasive::unreached(),
        };
        self.insert_entry(*task_id, info);
    }

    /// Folds a completion into the todo's task's state: if a previous
    /// completion is on record the gap feeds the running average; the
    /// completion instant becomes the new anchor.  A task the predictor has
    /// never seen is left untracked.
    pub fn handle_completion(&mut self, store: &MemStore, todo_id: &TodoId, completed:
        &TodoCompleted)
        requires
            old(self).wf(),
            store@.wf(),
            idx_of(store@.todos, todo_id.0) != -1,
            date_in_range(completed.date.nanos as int),
        ensures
            final(self).wf(),
            ({
                let task = store@.todos[idx_of(store@.todos, todo_id.0)].task;
                if old(self)@.contains_key(task) {
                    final(self)@ == old(self)@.insert(
                        task,
                        completed_info(old(self)@[task], completed.date),
                    )
                } else {
                    final(self)@ == old(self)@
                }
            }),
    {
        let todo = match store.get_todo(todo_id) {
            Some(t) => t,
            None => vstd::pervasive::unreached(),
        };
        let task_id = todo.task;
        proof {
            if self@.contains_key(task_id.0) {
                self.lemma_wf_entry(task_id.0);
            }
        }
        match self.lookup(&task_id) {
            Some(info) => {
                let new_info: DueInfo = match info.last_completed {
                    Some(last) => {
                        let diff = Span { nanos: completed.date.nanos - last.nanos };
                        DueInfo {
                            due_in: DueIn::add(info.due_in, diff),
                            last_completed: Some(completed.date),
                        }
                    },
                    None => DueInfo {
                        due_in: info.due_in,
                        last_completed: Some(completed.date),
                    },
                };
                self.insert_entry(task_id, new_info);
            },
            None => {},
        }
    }

    /// Pausing clears the completion anchor but keeps the learned interval,
    /// so the first completion after unpausing re-anchors without feeding a
    /// pause-length gap into the average.
    pub fn handle_pause(&mut self, task_id: &TaskId)
        requires
            old(self).wf(),
        ensures
            final(self).wf(),
            if old(self)@.contains_key(task_id.0) {
                final(self)@ == old(self)@.insert(
                    task_id.0,
                    DueInfo { due_in: old(self)@[task_id.0].due_in, last_completed: None },
                )
            } else {
                final(self)@ == old(self)@
            },
    {
        proof {
            if self@.contains_key(task_id.0) {
                self.lemma_wf_entry(task_id.0);
            }
        }
        match self.lookup(task_id) {
            Some(info) => {
                self.insert_entry(
                    *task_id,
                    DueInfo { due_in: info.due_in, last_completed: None },
                );
            },
            None => {},
        }
    }

    /// The guessed due instant for a task, for a given "now".
    pub fn guess_due_at(&self, task_id: &TaskId, now: TodoDate) -> (r: TodoDate)
        requires
            self.wf(),
            clock_in_range(now.nanos as int),
        ensures
            r.nanos as int == spec_guess_due(self@, task_id.0, now.nanos as int),
            due_in_range(r.nanos as int),
    {
        let (base, due_in) = match self.lookup(task_id) {
            Some(info) => {
                proof {
                    self.lemma_wf_entry(task_id.0);
                }
                (
                    match info.last_completed {
                        Some(t) => t,
                        None => now,
                    },
                    info.due_in,
                )
            },
            None => (now, None),
        };
        proof {
            lemma_interval_bound(due_in);
        }
        let plus = DueIn::get(due_in);
        TodoDate { nanos: base.nanos + plus.nanos }
    }

    /// The guessed due instant for a task, read at the current instant; the
    /// clock only matters when the task has no completion on record.
    pub fn guess_due(&self, _store: &MemStore, task_id: &TaskId) -> (r: TodoDate)
        requires
            self.wf(),
        ensures
            exists|now: int|
                clock_in_range(now) && r.nanos as int == spec_guess_due(
                    self@,
                    task_id.0,
                    now,
                ),
            due_in_range(r.nanos as int),
    {
        let now = TodoDate { nanos: now_nanos() };
        let r = self.guess_due_at(task_id, now);
        proof {
            assert(clock_in_range(now.nanos as int) && r.nanos as int == spec_guess_due(
                self@,
                task_id.0,
                now.nanos as int,
            ));
        }
        r
    }

    /// The postponed due instant for a todo, for a given "now".
    pub fn guess_later_at(&self, store: &MemStore, todo_id: &TodoId, now: TodoDate) -> (r:
        TodoDate)
        requires
            self.wf(),
            store@.wf(),
            idx_of(store@.todos, todo_id.0) != -1,
            clock_in_range(now.nanos as int),
        ensures
            r.nanos as int == spec_guess_later(self@, store@, todo_id.0, now.nanos as int),
    {
        let todo = match store.get_todo(todo_id) {
            Some(t) => t,
            None => vstd::pervasive::unreached(),
        };
        let due_in = match self.lookup(&todo.task) {
            Some(info) => {
                proof {
                    self.lemma_wf_entry(todo.task.0);
                }
                info.due_in
            },
            None => None,
        };
        proof {
            lemma_interval_bound(due_in);
        }
        let interval = DueIn::get(due_in);
        let anchor = if now.nanos >= todo.due.nanos {
            now.nanos
        } else {
            todo.due.nanos
        };
        let fifth = div_trunc_i128(interval.nanos, 5);
        let push = if NANOS_PER_DAY >= fifth {
            NANOS_PER_DAY
        } else {
            fifth
        };
        proof {
            lemma_div_trunc_bound(interval.nanos as int, 5, FIXED_SPAN_MAX as int);
            crate::mem_store::lemma_idx_of(store@.todos, todo_id.0);
            assert(due_in_range(store@.todos[idx_of(store@.todos, todo_id.0)].due));
        }
        TodoDate { nanos: anchor + push }
    }

    /// The postponed due instant for a todo, read at the current instant.
    pub fn guess_later(&self, store: &MemStore, todo_id: &TodoId) -> (r: TodoDate)
        requires
            self.wf(),
            store@.wf(),
            idx_of(store@.todos, todo_id.0) != -1,
        ensures
            exists|now: int|
                clock_in_range(now) && r.nanos as int == spec_guess_later(
                    self@,
                    store@,
                    todo_id.0,
                    now,
                ),
    {
        let now = TodoDate { nanos: now_nanos() };
        let r = self.guess_later_at(store, todo_id, now);
        proof {
            assert(clock_in_range(now.nanos as int) && r.nanos as int == spec_guess_later(
                self@,
                store@,
                todo_id.0,
                now.nanos as int,
            ));
        }
        r
    }
}

impl DueIn {
    /// A fixed interval, as given at task creation.
    pub fn new(duration: Span) -> (r: Self)
        ensures
            r == DueIn::Fixed(duration),
    {
        DueIn::Fixed(duration)
    }

    /// The interval a state reports.
    pub fn get(v: Option<DueIn>) -> (r: Span)
        requires
            match v {
                Some(d) => due_in_wf(d),
                None => true,
            },
        ensures
            r.nanos as int == interval_of(v),
    {
        match v {
            Some(DueIn::Calculated(sum, count)) => Span {
                nanos: div_trunc_i128(sum.nanos, count as i128),
            },
            Some(DueIn::Fixed(d)) => d,
            None => Span { nanos: DEFAULT_PERIOD_NANOS },
        }
    }

    /// Folds one observed gap into a state.
    pub fn add(v: Option<DueIn>, duration: Span) -> (r: Option<DueIn>)
        requires
            match v {
                Some(d) => due_in_wf(d),
                None => true,
            },
            -(DIFF_ABS_MAX as int) <= duration.nanos as int <= DIFF_ABS_MAX as int,
        ensures
            r == Some(added_due_in(v, duration.nanos as int)),
            due_in_wf(added_due_in(v, duration.nanos as int)),
    {
        Some(
            if let Some(DueIn::Calculated(sum, count)) = v {
                let new_count: u32 = if count + 1 <= 10 {
                    count + 1
                } else {
                    10
                };
                proof {
                    assert(-(10 * (DIFF_ABS_MAX as int)) <= sum.nanos as int <= 10 * (
                    DIFF_ABS_MAX as int) && -((count as int) * (DIFF_ABS_MAX as int))
                        <= sum.nanos as int <= (count as int) * (DIFF_ABS_MAX as int))
                        by (nonlinear_arith)
                        requires
                            1 <= count <= 10,
                            -(count as int) * (DIFF_ABS_MAX as int) <= sum.nanos as int <= (
                            count as int) * (DIFF_ABS_MAX as int),
                    ;
                    crate::data::lemma_div_trunc_quotient_bound(
                        sum.nanos as int,
                        count as int,
                        DIFF_ABS_MAX as int,
                    );
                }
                let avg = div_trunc_i128(sum.nanos, count as i128);
                let nc1 = (new_count - 1) as i128;
                proof {
                    assert(-((new_count as int) * (DIFF_ABS_MAX as int)) <= duration.nanos as int
                        + (avg as int) * (nc1 as int) <= (new_count as int) * (
                    DIFF_ABS_MAX as int) && -(10 * (DIFF_ABS_MAX as int))
                        <= duration.nanos as int + (avg as int) * (nc1 as int) <= 10 * (
                    DIFF_ABS_MAX as int)) by (nonlinear_arith)
                        requires
                            -(DIFF_ABS_MAX as int) <= avg as int <= DIFF_ABS_MAX as int,
                            -(DIFF_ABS_MAX as int) <= duration.nanos as int
                                <= DIFF_ABS_MAX as int,
                            1 <= new_count as int <= 10,
                            nc1 as int == new_count as int - 1,
                    ;
                }
                DueIn::Calculated(
                    Span { nanos: duration.nanos + avg * nc1 },
                    new_count,
                )
            } else {
                DueIn::Calculated(duration, 1)
            },
        )
    }
}

} // verus!
