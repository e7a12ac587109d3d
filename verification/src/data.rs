//! Plain data model: identifiers, instants, durations, tasks and todos.
//!
//! Instants are counted in nanoseconds since the Unix epoch, durations in
//! nanoseconds.  Both are held in `i128`, wide enough that all arithmetic the
//! engine performs stays far away from the machine limits as long as the
//! values respect the bounds below.

use vstd::prelude::*;

verus! {

/// Nanoseconds in one second.
pub const NANOS_PER_SEC: i128 = 1_000_000_000;

/// Nanoseconds in one day.
pub const NANOS_PER_DAY: i128 = 86_400_000_000_000;

/// The default period between occurrences when nothing is known: 30 days.
pub const DEFAULT_PERIOD_NANOS: i128 = 2_592_000_000_000_000;

/// 0000-01-01T00:00:00, the earliest instant the log's date text can carry.
pub const DATE_MIN_NANOS: i128 = -62_167_219_200_000_000_000;

/// 9999-12-31T23:59:59.999999999, the latest instant the date text can carry.
pub const DATE_MAX_NANOS: i128 = 253_402_300_799_999_999_999;

/// Bound on any instant a wall clock can report (years -9999 to 9999).
pub const CLOCK_ABS_MAX: i128 = 400_000_000_000_000_000_000;

/// The largest fixed interval a task can be created with (the largest
/// duration expressible as whole seconds in a `u64` plus nanoseconds).
pub const FIXED_SPAN_MAX: i128 = 18_446_744_073_709_551_615_999_999_999;

/// Bound on the gap between two recorded completion instants.
pub const DIFF_ABS_MAX: i128 = 700_000_000_000_000_000_000;

/// Bound on any stored due instant; postponing past it is refused.
pub const DUE_ABS_MAX: i128 = 1_000_000_000_000_000_000_000_000_000_000_000;

/// Identifier of a task, assigned densely from 1 per store instance.
#[derive(Clone, Copy, PartialEq, Eq, Hash, Debug, Structural)]
pub struct TaskId(pub u64);

/// Identifier of a todo, assigned from 1 per store instance, never reused.
#[derive(Clone, Copy, PartialEq, Eq, Hash, Debug, Structural)]
pub struct TodoId(pub u64);

/// An instant, in nanoseconds since the Unix epoch.
#[derive(Clone, Copy, PartialEq, Eq, PartialOrd, Ord, Hash, Debug, Structural)]
pub struct TodoDate {
    pub nanos: i128,
}

/// A signed duration, in nanoseconds.
#[derive(Clone, Copy, PartialEq, Eq, PartialOrd, Ord, Hash, Debug, Structural)]
pub struct Span {
    pub nanos: i128,
}

/// The completion record of a todo: when it was done.
#[derive(Clone, Copy, PartialEq, Eq, Debug, Structural)]
pub struct TodoCompleted {
    pub date: TodoDate,
}

impl TodoCompleted {
    pub fn new(date: TodoDate) -> (r: Self)
        ensures
            r.date == date,
    {
        TodoCompleted { date }
    }
}

/// A recurring item the user wants to be reminded about.
#[derive(Debug)]
pub struct Task {
    pub id: TaskId,
    pub title: String,
}

impl Clone for Task {
    fn clone(&self) -> (r: Self)
        ensures
            r@ == self@,
    {
        Task { id: self.id, title: self.title.clone() }
    }
}

/// One occurrence of a task, open (`completed == None`) or completed.
#[derive(Debug)]
pub struct Todo {
    pub id: TodoId,
    pub task: TaskId,
    pub completed: Option<TodoCompleted>,
    pub due: TodoDate,
}

impl Clone for Todo {
    fn clone(&self) -> (r: Self)
        ensures
            r@ == self@,
            r.id == self.id,
            r.task == self.task,
            r.completed == self.completed,
            r.due == self.due,
    {
        Todo { id: self.id, task: self.task, completed: self.completed, due: self.due }
    }
}

/// Mathematical image of a `Task`.
pub ghost struct TaskV {
    pub id: u64,
    pub title: Seq<char>,
}

/// Mathematical image of a `Todo`; instants become unbounded integers.
pub ghost struct TodoV {
    pub id: u64,
    pub task: u64,
    pub due: int,
    pub completed: Option<int>,
}

impl View for Task {
    type V = TaskV;

    open spec fn view(&self) -> TaskV {
        TaskV { id: self.id.0, title: self.title@ }
    }
}

impl View for Todo {
    type V = TodoV;

    open spec fn view(&self) -> TodoV {
        TodoV {
            id: self.id.0,
            task: self.task.0,
            due: self.due.nanos as int,
            completed: match self.completed {
                Some(c) => Some(c.date.nanos as int),
                None => None,
            },
        }
    }
}

/// An instant the log's date text can carry (year 0000 to 9999).
pub open spec fn date_in_range(n: int) -> bool {
    DATE_MIN_NANOS as int <= n <= DATE_MAX_NANOS as int
}

/// An instant a wall clock can report.
pub open spec fn clock_in_range(n: int) -> bool {
    -(CLOCK_ABS_MAX as int) <= n <= CLOCK_ABS_MAX as int
}

/// A due instant the store accepts.
pub open spec fn due_in_range(n: int) -> bool {
    -(DUE_ABS_MAX as int) <= n <= DUE_ABS_MAX as int
}

/// A fixed interval a task can be created with.
pub open spec fn fixed_span_in_range(n: int) -> bool {
    0 <= n <= FIXED_SPAN_MAX as int
}

/// Truncating division (rounds towards zero), the semantics the engine's
/// averaging uses; only ever applied with a positive divisor.
pub open spec fn div_trunc(a: int, b: int) -> int
    recommends
        b > 0,
{
    if a >= 0 {
        a / b
    } else {
        -((-a) / b)
    }
}

/// Truncating division on machine integers, proved to match `div_trunc`.
pub fn div_trunc_i128(a: i128, b: i128) -> (r: i128)
    requires
        0 < b,
        -(DUE_ABS_MAX as int) * 100 <= a as int <= (DUE_ABS_MAX as int) * 100,
    ensures
        r as int == div_trunc(a as int, b as int),
{
    if a >= 0 {
        proof {
            vstd::arithmetic::div_mod::lemma_div_pos_is_pos(a as int, b as int);
            vstd::arithmetic::div_mod::lemma_div_nonincreasing(a as int, b as int);
        }
        ((a as u128) / (b as u128)) as i128
    } else {
        proof {
            vstd::arithmetic::div_mod::lemma_div_pos_is_pos(-(a as int), b as int);
            vstd::arithmetic::div_mod::lemma_div_nonincreasing(-(a as int), b as int);
        }
        -((((-a) as u128) / (b as u128)) as i128)
    }
}

/// A property that holds of every element of a sequence also holds of every
/// element of its filtrate.
pub proof fn lemma_filter_preserves<A>(s: Seq<A>, pred: spec_fn(A) -> bool, p: spec_fn(
    A,
) -> bool)
    requires
        forall|i: int| 0 <= i < s.len() ==> p(#[trigger] s[i]),
    ensures
        forall|i: int| 0 <= i < s.filter(pred).len() ==> p(#[trigger] s.filter(pred)[i]),
    decreases s.len(),
{
    reveal(Seq::filter);
    if s.len() > 0 {
        assert(forall|i: int| 0 <= i < s.drop_last().len() ==> p(#[trigger] s.drop_last()[i]));
        lemma_filter_preserves(s.drop_last(), pred, p);
        let out = s.filter(pred);
        let sub = s.drop_last().filter(pred);
        assert forall|i: int| 0 <= i < out.len() implies p(out[i]) by {
            if i < sub.len() {
                assert(out[i] == sub[i]);
            } else {
                assert(out[i] == s.last());
            }
        }
    }
}

/// Dividing something bounded by `b * m` by `b` gives something bounded by
/// `m`.
pub proof fn lemma_div_trunc_quotient_bound(a: int, b: int, m: int)
    requires
        b > 0,
        0 <= m,
        -(b * m) <= a <= b * m,
    ensures
        -m <= div_trunc(a, b) <= m,
{
    if a >= 0 {
        vstd::arithmetic::div_mod::lemma_div_is_ordered(a, b * m, b);
        vstd::arithmetic::div_mod::lemma_div_multiples_vanish(m, b);
        vstd::arithmetic::div_mod::lemma_div_pos_is_pos(a, b);
    } else {
        vstd::arithmetic::div_mod::lemma_div_is_ordered(-a, b * m, b);
        vstd::arithmetic::div_mod::lemma_div_multiples_vanish(m, b);
        vstd::arithmetic::div_mod::lemma_div_pos_is_pos(-a, b);
    }
}

/// The magnitude of a truncating quotient never exceeds the dividend's.
pub proof fn lemma_div_trunc_bound(a: int, b: int, m: int)
    requires
        b > 0,
        -m <= a <= m,
        0 <= m,
    ensures
        -m <= div_trunc(a, b) <= m,
{
    if a >= 0 {
        vstd::arithmetic::div_mod::lemma_div_pos_is_pos(a, b);
        vstd::arithmetic::div_mod::lemma_div_nonincreasing(a, b);
    } else {
        vstd::arithmetic::div_mod::lemma_div_pos_is_pos(-a, b);
        vstd::arithmetic::div_mod::lemma_div_nonincreasing(-a, b);
    }
}

} // verus!
