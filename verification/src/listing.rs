//! Selecting what a listing shows: open todos split into due and not yet
//! due, a few of each unless everything was asked for, and the paused tasks.

use vstd::prelude::*;
use crate::clock::now_nanos;
use crate::data::{NANOS_PER_DAY, Task, TaskV, Todo, clock_in_range};
use crate::logline::dec_text;
use crate::mem_store::{MemStore, StoreV, open_idx};

verus! {

/// At most this many due todos are listed unless everything is asked for.
pub const MAX_DUE: usize = 5;

/// At most this many not-yet-due todos are listed.
pub const MAX_NOT_DUE: usize = 3;

/// A todo/task pair the listing may show: the task exists and the todo is
/// its unique open todo.
pub open spec fn listed_pair(s: StoreV, pair: (Todo, Task)) -> bool {
    &&& s.has_task(pair.1.id.0)
    &&& pair.1@ == s.task_at(pair.1.id.0)
    &&& open_idx(s.todos, pair.1.id.0) != -1
    &&& pair.0@ == s.todos[open_idx(s.todos, pair.1.id.0)]
}

/// All pairs show existing tasks with their open todos, no task twice, and
/// no task above the given id.
pub open spec fn pairs_ok(s: StoreV, v: Seq<(Todo, Task)>, maxid: u64) -> bool {
    &&& forall|k: int| 0 <= k < v.len() ==> listed_pair(s, #[trigger] v[k])
    &&& forall|k: int, l: int|
        0 <= k < l < v.len() ==> (#[trigger] v[k]).1.id.0 != (#[trigger] v[l]).1.id.0
    &&& forall|k: int| 0 <= k < v.len() ==> (#[trigger] v[k]).1.id.0 <= maxid
}

/// Non-decreasing due order throughout positions [lo, hi).
pub open spec fn due_sorted(v: Seq<(Todo, Task)>, lo: int, hi: int) -> bool {
    forall|i: int, j: int|
        lo <= i < j < hi ==> (#[trigger] v[i]).0.due.nanos <= (#[trigger] v[j]).0.due.nanos
}

/// The listing order: first the pairs due by `b`, then the later ones,
/// each group in non-decreasing due order.
pub open spec fn grouped_by_due(v: Seq<(Todo, Task)>, m: int, b: int) -> bool {
    &&& 0 <= m <= v.len()
    &&& forall|i: int| 0 <= i < m ==> (#[trigger] v[i]).0.due.nanos as int <= b
    &&& forall|i: int| m <= i < v.len() ==> (#[trigger] v[i]).0.due.nanos as int > b
    &&& due_sorted(v, 0, m)
    &&& due_sorted(v, m, v.len() as int)
}

/// The pairs come grouped by a day-after-a-clock-read bound: todos due by
/// it first, the later ones after, each part in due order.
pub open spec fn well_grouped(v: Seq<(Todo, Task)>) -> bool {
    exists|b: int, m: int|
        #![trigger grouped_by_due(v, m, b)]
        clock_in_range(b - NANOS_PER_DAY as int) && grouped_by_due(v, m, b)
}

/// Whether some pair shows the given task.
pub open spec fn mem_id(v: Seq<(Todo, Task)>, t: u64) -> bool {
    exists|k: int| 0 <= k < v.len() && (#[trigger] v[k]).1.id.0 == t
}

/// Every task with an open todo appears among the pairs.
pub open spec fn covers_active(s: StoreV, v: Seq<(Todo, Task)>) -> bool {
    forall|t: u64|
        1 <= t <= s.tasks.len() && #[trigger] open_idx(s.todos, t) != -1 ==> mem_id(v, t)
}

/// Relies on `rand::thread_rng` and `rand::seq::index::sample`: exactly
/// `amount` distinct indices below `length`, in arbitrary order.
#[verifier::external_body]
fn sample_indices(length: usize, amount: usize) -> (r: Vec<usize>)
    requires
        amount <= length,
    ensures
        r@.len() == amount,
        forall|i: int| 0 <= i < r@.len() ==> #[trigger] r@[i] < length,
        forall|i: int, j: int| 0 <= i < j < r@.len() ==> r@[i] != r@[j],
{
    let mut rng = rand::thread_rng();
    rand::seq::index::sample(&mut rng, length, amount).into_vec()
}

/// The positional shape of inserting one pair at a position.
spec fn inserted_at(pre: Seq<(Todo, Task)>, v: Seq<(Todo, Task)>, pos: int, pair: (
    Todo,
    Task,
)) -> bool {
    &&& 0 <= pos <= pre.len()
    &&& v.len() == pre.len() + 1
    &&& v[pos] == pair
    &&& forall|k: int| 0 <= k < pos ==> #[trigger] v[k] == pre[k]
    &&& forall|k: int| pos < k < v.len() ==> #[trigger] v[k] == pre[k - 1]
}

/// Inserting a fresh pair keeps the pair properties and records where
/// everything went.
proof fn lemma_insert_keeps_pairs(s: StoreV, pre: Seq<(Todo, Task)>, v: Seq<(Todo, Task)>, pos:
    int, pair: (Todo, Task), maxid: u64)
    requires
        inserted_at(pre, v, pos, pair),
        pairs_ok(s, pre, maxid),
        listed_pair(s, pair),
        pair.1.id.0 > maxid,
    ensures
        pairs_ok(s, v, pair.1.id.0),
        forall|k: int|
            0 <= k < v.len() ==> (#[trigger] v[k]) == pair || exists|k0: int|
                0 <= k0 < pre.len() && pre[k0] == v[k],
        forall|k0: int| #![trigger pre[k0]]
            0 <= k0 < pre.len() ==> exists|k: int| 0 <= k < v.len() && (#[trigger] v[k])
                == pre[k0],
{
    assert forall|k: int|
        0 <= k < v.len() implies listed_pair(s, #[trigger] v[k]) && v[k].1.id.0
        <= pair.1.id.0 && (v[k] == pair || exists|k0: int|
        0 <= k0 < pre.len() && pre[k0] == v[k]) by {
        if k < pos {
            assert(v[k] == pre[k]);
            assert(0 <= k < pre.len() && pre[k] == v[k]);
        } else if k > pos {
            assert(v[k] == pre[k - 1]);
            assert(0 <= k - 1 < pre.len() && pre[k - 1] == v[k]);
        }
    }
    assert forall|k0: int| #![trigger pre[k0]]
        0 <= k0 < pre.len() implies exists|k: int|
            0 <= k < v.len() && (#[trigger] v[k]) == pre[k0] by {
        if k0 < pos {
            assert(v[k0] == pre[k0]);
        } else {
            assert(v[k0 + 1] == pre[k0]);
        }
    }
    assert forall|k: int, l: int|
        0 <= k < l < v.len() implies (#[trigger] v[k]).1.id.0 != (#[trigger] v[l]).1.id.0 by {
        if k != pos && l != pos {
            let k0: int = if k < pos {
                k
            } else {
                k - 1
            };
            let l0: int = if l < pos {
                l
            } else {
                l - 1
            };
            assert(v[k] == pre[k0]);
            assert(v[l] == pre[l0]);
        } else if k == pos {
            assert(v[l] == pre[l - 1]);
            assert(pre[l - 1].1.id.0 <= maxid);
        } else {
            assert(v[k] == pre[k]);
            assert(pre[k].1.id.0 <= maxid);
        }
    }
}

/// Inserting at the scanned position keeps the due order.
proof fn lemma_insert_keeps_order(pre: Seq<(Todo, Task)>, v: Seq<(Todo, Task)>, pos: int, pair:
    (Todo, Task))
    requires
        inserted_at(pre, v, pos, pair),
        due_sorted(pre, 0, pre.len() as int),
        forall|q: int| 0 <= q < pos ==> (#[trigger] pre[q]).0.due.nanos < pair.0.due.nanos,
        pos < pre.len() ==> pre[pos].0.due.nanos >= pair.0.due.nanos,
    ensures
        due_sorted(v, 0, v.len() as int),
{
    assert forall|k: int, l: int|
        0 <= k < l < v.len() implies (#[trigger] v[k]).0.due.nanos <= (
        #[trigger] v[l]).0.due.nanos by {
        if k < pos {
            assert(v[k] == pre[k]);
        }
        if k > pos {
            assert(v[k] == pre[k - 1]);
        }
        if l < pos {
            assert(v[l] == pre[l]);
        }
        if l > pos {
            assert(v[l] == pre[l - 1]);
        }
        if l == pos {
            assert(pre[k].0.due.nanos < pair.0.due.nanos);
        }
        if k == pos {
            assert(pos < pre.len());
            if l - 1 > pos {
                assert(pre[pos].0.due.nanos <= pre[l - 1].0.due.nanos);
            }
        }
    }
}

/// Inserts a fresh pair in due order, unless the capped position is past
/// the cap; returns whether it went in.
#[verifier::loop_isolation(false)]
#[verifier::rlimit(100)]
#[verifier::spinoff_prover]
fn insert_sorted(v: &mut Vec<(Todo, Task)>, pair: (Todo, Task), cap: usize, all: bool, Ghost(
    s,
): Ghost<StoreV>, Ghost(maxid): Ghost<u64>) -> (ins: bool)
    requires
        pairs_ok(s, old(v)@, maxid),
        due_sorted(old(v)@, 0, old(v)@.len() as int),
        listed_pair(s, pair),
        pair.1.id.0 > maxid,
    ensures
        pairs_ok(s, final(v)@, pair.1.id.0),
        due_sorted(final(v)@, 0, final(v)@.len() as int),
        final(v)@.len() == old(v)@.len() + (if ins {
            1int
        } else {
            0int
        }),
        all ==> ins,
        forall|k: int|
            0 <= k < final(v)@.len() ==> (#[trigger] final(v)@[k]) == pair || exists|k0: int|
                0 <= k0 < old(v)@.len() && old(v)@[k0] == final(v)@[k],
        forall|k0: int| #![trigger old(v)@[k0]]
            0 <= k0 < old(v)@.len() ==> exists|k: int|
                0 <= k < final(v)@.len() && (#[trigger] final(v)@[k]) == old(v)@[k0],
        ins ==> exists|k: int| 0 <= k < final(v)@.len() && (#[trigger] final(v)@[k]) == pair,
{
    let mut pos: usize = 0;
    let tlen = v.len();
    while pos < tlen && v[pos].0.due.nanos < pair.0.due.nanos
        invariant
            pos <= tlen,
            forall|q: int| 0 <= q < pos ==> (#[trigger] v@[q]).0.due.nanos < pair.0.due.nanos,
        decreases tlen - pos,
    {
        pos = pos + 1;
    }
    if all || pos < cap {
        let ghost pre = v@;
        v.insert(pos, pair);
        proof {
            assert(inserted_at(pre, v@, pos as int, pair));
            lemma_insert_keeps_pairs(s, pre, v@, pos as int, pair, maxid);
            lemma_insert_keeps_order(pre, v@, pos as int, pair);
            assert(v@[pos as int] == pair);
        }
        true
    } else {
        proof {
            assert forall|k: int|
                0 <= k < v@.len() implies exists|k0: int|
                    0 <= k0 < v@.len() && v@[k0] == (#[trigger] v@[k]) by {
                assert(v@[k] == v@[k]);
            }
            assert forall|k0: int| #![trigger v@[k0]]
                0 <= k0 < v@.len() implies exists|k: int|
                    0 <= k < v@.len() && (#[trigger] v@[k]) == v@[k0] by {
                assert(v@[k0] == v@[k0]);
            }
        }
        false
    }
}

/// Appends clones of the first `m` pairs of `src` to `v`, keeping the
/// pair properties; the sources' tasks must all be fresh to `v`.
#[verifier::loop_isolation(false)]
fn append_pairs(v: &mut Vec<(Todo, Task)>, src: &Vec<(Todo, Task)>, m: usize, Ghost(s): Ghost<
    StoreV,
>, Ghost(maxid): Ghost<u64>) -> (nothing: ())
    requires
        m <= src@.len(),
        pairs_ok(s, old(v)@, maxid),
        pairs_ok(s, src@, maxid),
        forall|k: int, l: int|
            0 <= k < old(v)@.len() && 0 <= l < src@.len() ==> (#[trigger] old(v)@[k]).1.id.0
                != (#[trigger] src@[l]).1.id.0,
    ensures
        pairs_ok(s, final(v)@, maxid),
        final(v)@.len() == old(v)@.len() + m,
        forall|q: int| 0 <= q < old(v)@.len() ==> (#[trigger] final(v)@[q]) == old(v)@[q],
        forall|q: int|
            old(v)@.len() <= q < final(v)@.len() ==> (#[trigger] final(v)@[q]).1.id.0
                == src@[q - old(v)@.len()].1.id.0 && final(v)@[q].0.due == src@[q - old(
                v,
            )@.len()].0.due,
{
    let base = v.len();
    let mut k: usize = 0;
    while k < m
        invariant
            k <= m,
            v@.len() == base + k,
            base == old(v)@.len(),
            forall|q: int| 0 <= q < base ==> v@[q] == #[trigger] old(v)@[q],
            forall|q: int|
                base <= q < v@.len() ==> (#[trigger] v@[q]).1.id.0 == src@[q - base].1.id.0
                    && v@[q].0.due == src@[q - base].0.due && listed_pair(s, v@[q]),
        decreases m - k,
    {
        let p = &src[k];
        let cloned = (p.0.clone(), p.1.clone());
        proof {
            assert(cloned.0@ == p.0@);
            assert(cloned.1@ == p.1@);
            assert(cloned.1.id.0 == p.1.id.0);
            assert(cloned.0.due == p.0.due);
        }
        v.push(cloned);
        k = k + 1;
    }
    proof {
        assert forall|q: int, l: int|
            0 <= q < l < v@.len() implies (#[trigger] v@[q]).1.id.0 != (#[trigger] v@[l]).1.id.0 by {
            if l < base {
                assert(v@[q] == old(v)@[q]);
                assert(v@[l] == old(v)@[l]);
            } else if q < base {
                assert(v@[q] == old(v)@[q]);
                assert(v@[l].1.id.0 == src@[l - base].1.id.0);
            } else {
                assert(v@[q].1.id.0 == src@[q - base].1.id.0);
                assert(v@[l].1.id.0 == src@[l - base].1.id.0);
                assert(src@[q - base].1.id.0 != src@[l - base].1.id.0);
            }
        }
        assert forall|q: int| 0 <= q < v@.len() implies (#[trigger] v@[q]).1.id.0 <= maxid
            by {
            if q < base {
                assert(v@[q] == old(v)@[q]);
            } else {
                assert(v@[q].1.id.0 == src@[q - base].1.id.0);
            }
        }
        assert forall|q: int| 0 <= q < v@.len() implies listed_pair(s, #[trigger] v@[q]) by {
            if q < base {
                assert(v@[q] == old(v)@[q]);
            }
        }
    }
}

/// Splits the active tasks into open todos due by `b`, open todos due
/// later, and the paused tasks; each todo group in due order, the paused
/// list exactly the open-todo-less tasks in id order.  With `all` nothing
/// is dropped and the flag stays false; otherwise the due group is capped
/// by insert position, setting the flag when a due todo is turned away.
#[verifier::loop_isolation(false)]
#[verifier::rlimit(100)]
#[verifier::spinoff_prover]
fn partition_active(store: &MemStore, all: bool, tomorrow: i128, Ghost(b): Ghost<int>) -> (r: (
    Vec<(Todo, Task)>,
    Vec<(Todo, Task)>,
    Vec<Task>,
    bool,
))
    requires
        store@.wf(),
        b == tomorrow as int,
    ensures
        pairs_ok(store@, r.0@, store@.last_task_id),
        pairs_ok(store@, r.1@, store@.last_task_id),
        due_sorted(r.0@, 0, r.0@.len() as int),
        due_sorted(r.1@, 0, r.1@.len() as int),
        forall|k: int| 0 <= k < r.0@.len() ==> (#[trigger] r.0@[k]).0.due.nanos as int <= b,
        forall|k: int| 0 <= k < r.1@.len() ==> (#[trigger] r.1@[k]).0.due.nanos as int > b,
        forall|k: int, l: int|
            0 <= k < r.0@.len() && 0 <= l < r.1@.len() ==> (#[trigger] r.0@[k]).1.id.0 != (
            #[trigger] r.1@[l]).1.id.0,
        all ==> forall|t: u64|
            1 <= t <= store@.tasks.len() && #[trigger] open_idx(store@.todos, t) != -1
                ==> mem_id(r.0@, t) || mem_id(r.1@, t),
        all ==> !r.3,
        r.2@.map_values(|t: Task| t@) == store@.tasks.filter(
            |t: TaskV| open_idx(store@.todos, t.id) == -1,
        ),
{
    let tasks = store.get_tasks();
    let mut todos_due: Vec<(Todo, Task)> = Vec::new();
    let mut todos_not_due: Vec<(Todo, Task)> = Vec::new();
    let mut paused_tasks: Vec<Task> = Vec::new();
    let mut and_more = false;
    let n = tasks.len();
    let ghost pred = |t: TaskV| open_idx(store@.todos, t.id) == -1;
    proof {
        reveal(Seq::filter);
        assert(store@.tasks.take(0) =~= Seq::<TaskV>::empty());
        assert(paused_tasks@.map_values(|t: Task| t@) =~= Seq::<TaskV>::empty());
    }
    let mut i: usize = 0;
    while i < n
        invariant
            i <= n,
            n == store@.tasks.len(),
            pairs_ok(store@, todos_due@, i as u64),
            pairs_ok(store@, todos_not_due@, i as u64),
            due_sorted(todos_due@, 0, todos_due@.len() as int),
            due_sorted(todos_not_due@, 0, todos_not_due@.len() as int),
            forall|k: int|
                0 <= k < todos_due@.len() ==> (#[trigger] todos_due@[k]).0.due.nanos as int
                    <= b,
            forall|k: int|
                0 <= k < todos_not_due@.len() ==> (
                #[trigger] todos_not_due@[k]).0.due.nanos as int > b,
            forall|k: int, l: int|
                0 <= k < todos_due@.len() && 0 <= l < todos_not_due@.len() ==> (
                #[trigger] todos_due@[k]).1.id.0 != (#[trigger] todos_not_due@[l]).1.id.0,
            all ==> forall|t: u64|
                1 <= t <= i as u64 && #[trigger] open_idx(store@.todos, t) != -1 ==> mem_id(
                    todos_due@,
                    t,
                ) || mem_id(todos_not_due@, t),
            all ==> !and_more,
            paused_tasks@.map_values(|t: Task| t@) == store@.tasks.take(i as int).filter(
                pred,
            ),
        decreases n - i,
    {
        let task = tasks[i].clone();
        proof {
            assert(tasks@.map_values(|t: Task| t@)[i as int] == store@.tasks[i as int]);
            assert(task@ == store@.tasks[i as int]);
            assert(task.id.0 == i + 1);
        }
        match store.find_open_todo(&task.id) {
            Some(todo) => {
                let due = todo.due.nanos <= tomorrow;
                let ghost tid = task.id.0;
                let pair = (todo, task);
                proof {
                    assert(listed_pair(store@, pair));
                }
                let ghost pre_due = todos_due@;
                let ghost pre_nd = todos_not_due@;
                if due {
                    let ins = insert_sorted(
                        &mut todos_due,
                        pair,
                        MAX_DUE,
                        all,
                        Ghost(store@),
                        Ghost(i as u64),
                    );
                    if !ins {
                        and_more = true;
                    }
                    proof {
                        assert forall|k: int|
                            0 <= k < todos_due@.len() implies (
                            #[trigger] todos_due@[k]).0.due.nanos as int <= b by {
                            if todos_due@[k] != pair {
                                let k0 = choose|k0: int|
                                    0 <= k0 < pre_due.len() && pre_due[k0] == todos_due@[k];
                                assert(pre_due[k0].0.due.nanos as int <= b);
                            }
                        }
                        assert forall|k: int, l: int|
                            0 <= k < todos_due@.len() && 0 <= l < todos_not_due@.len() implies (
                            #[trigger] todos_due@[k]).1.id.0 != (#[trigger] todos_not_due@[l]).1.id.0 by {
                            if todos_due@[k].1.id.0 != tid {
                                let k0 = choose|k0: int|
                                    0 <= k0 < pre_due.len() && pre_due[k0] == todos_due@[k];
                                assert(pre_due[k0].1.id.0 != todos_not_due@[l].1.id.0);
                            } else {
                                assert(todos_not_due@[l].1.id.0 <= i as u64);
                            }
                        }
                        if all {
                            assert forall|t: u64|
                                1 <= t <= i as u64 + 1 && #[trigger] open_idx(
                                    store@.todos,
                                    t,
                                ) != -1 implies mem_id(todos_due@, t) || mem_id(
                                todos_not_due@,
                                t,
                            ) by {
                                if t == tid {
                                    let w = choose|k: int|
                                        0 <= k < todos_due@.len() && (
                                        #[trigger] todos_due@[k]) == pair;
                                    assert(todos_due@[w].1.id.0 == t);
                                } else if mem_id(pre_due, t) {
                                    let k0 = choose|k0: int|
                                        0 <= k0 < pre_due.len() && (#[trigger] pre_due[k0]).1.id.0
                                            == t;
                                    let w = choose|k: int|
                                        0 <= k < todos_due@.len() && (
                                        #[trigger] todos_due@[k]) == pre_due[k0];
                                    assert(todos_due@[w].1.id.0 == t);
                                }
                            }
                        }
                    }
                } else {
                    let _ins = insert_sorted(
                        &mut todos_not_due,
                        pair,
                        MAX_NOT_DUE,
                        all,
                        Ghost(store@),
                        Ghost(i as u64),
                    );
                    proof {
                        assert forall|k: int|
                            0 <= k < todos_not_due@.len() implies (
                            #[trigger] todos_not_due@[k]).0.due.nanos as int > b by {
                            if todos_not_due@[k] != pair {
                                let k0 = choose|k0: int|
                                    0 <= k0 < pre_nd.len() && pre_nd[k0] == todos_not_due@[k];
                                assert(pre_nd[k0].0.due.nanos as int > b);
                            }
                        }
                        assert forall|k: int, l: int|
                            0 <= k < todos_due@.len() && 0 <= l < todos_not_due@.len() implies (
                            #[trigger] todos_due@[k]).1.id.0 != (#[trigger] todos_not_due@[l]).1.id.0 by {
                            if todos_not_due@[l].1.id.0 != tid {
                                let l0 = choose|l0: int|
                                    0 <= l0 < pre_nd.len() && pre_nd[l0] == todos_not_due@[l];
                                assert(todos_due@[k].1.id.0 != pre_nd[l0].1.id.0);
                            } else {
                                assert(todos_due@[k].1.id.0 <= i as u64);
                            }
                        }
                        if all {
                            assert forall|t: u64|
                                1 <= t <= i as u64 + 1 && #[trigger] open_idx(
                                    store@.todos,
                                    t,
                                ) != -1 implies mem_id(todos_due@, t) || mem_id(
                                todos_not_due@,
                                t,
                            ) by {
                                if t == tid {
                                    let w = choose|k: int|
                                        0 <= k < todos_not_due@.len() && (
                                        #[trigger] todos_not_due@[k]) == pair;
                                    assert(todos_not_due@[w].1.id.0 == t);
                                } else if mem_id(pre_nd, t) {
                                    let k0 = choose|k0: int|
                                        0 <= k0 < pre_nd.len() && (#[trigger] pre_nd[k0]).1.id.0
                                            == t;
                                    let w = choose|k: int|
                                        0 <= k < todos_not_due@.len() && (
                                        #[trigger] todos_not_due@[k]) == pre_nd[k0];
                                    assert(todos_not_due@[w].1.id.0 == t);
                                }
                            }
                        }
                    }
                }
                proof {
                    assert(store@.tasks.take(i + 1).drop_last() =~= store@.tasks.take(
                        i as int,
                    ));
                    assert(store@.tasks.take(i + 1).last() == store@.tasks[i as int]);
                    assert(!pred(store@.tasks[i as int]));
                    assert(store@.tasks.take(i + 1).filter(pred) =~= store@.tasks.take(
                        i as int,
                    ).filter(pred));
                }
            },
            None => {
                let ghost pre = paused_tasks@.map_values(|t: Task| t@);
                paused_tasks.push(task);
                proof {
                    assert(paused_tasks@.map_values(|t: Task| t@) =~= pre.push(
                        store@.tasks[i as int],
                    ));
                    assert(store@.tasks.take(i + 1).drop_last() =~= store@.tasks.take(
                        i as int,
                    ));
                    assert(store@.tasks.take(i + 1).last() == store@.tasks[i as int]);
                    assert(pred(store@.tasks[i as int]));
                    assert(store@.tasks.take(i + 1).filter(pred) =~= store@.tasks.take(
                        i as int,
                    ).filter(pred).push(store@.tasks[i as int]));
                }
            },
        }
        i = i + 1;
    }
    proof {
        assert(store@.tasks.take(n as int) =~= store@.tasks);
    }
    (todos_due, todos_not_due, paused_tasks, and_more)
}

/// The open todos to show with their tasks, the paused tasks, and whether
/// due todos were left out.  With `all` every active task appears and the
/// flag stays false; otherwise at most a handful are shown and an
/// overflowing due list is thinned to a random selection kept in order.
/// Either way the pairs come grouped: the ones due within a day of the
/// clock read first, then the later ones, each group in due order.  The
/// paused tasks are exactly the tasks without an open todo, in id order.
#[verifier::loop_isolation(false)]
#[verifier::rlimit(100)]
#[verifier::spinoff_prover]
pub fn get_todos(store: &MemStore, all: bool) -> (r: (Vec<(Todo, Task)>, Vec<Task>, bool))
    requires
        store@.wf(),
    ensures
        pairs_ok(store@, r.0@, store@.last_task_id),
        r.1@.map_values(|t: Task| t@) == store@.tasks.filter(
            |t: TaskV| open_idx(store@.todos, t.id) == -1,
        ),
        well_grouped(r.0@),
        all ==> covers_active(store@, r.0@),
        all ==> r.2 == false,
        !all ==> r.0@.len() <= MAX_DUE as int,
{
    let now = now_nanos();
    let tomorrow: i128 = now + NANOS_PER_DAY;
    let ghost b = tomorrow as int;
    let (todos_due, todos_not_due, paused_tasks, mut and_more) = partition_active(
        store,
        all,
        tomorrow,
        Ghost(b),
    );
    proof {
        assert(b - NANOS_PER_DAY as int == now as int);
        assert(clock_in_range(b - NANOS_PER_DAY as int));
    }
    let ghost due_v = todos_due@;
    let ghost nd_v = todos_not_due@;
    let due_len = todos_due.len();
    let mut todos = todos_due;
    if all {
        let m = todos_not_due.len();
        append_pairs(&mut todos, &todos_not_due, m, Ghost(store@), Ghost(store@.last_task_id));
        proof {
            lemma_grouped_concat(todos@, due_v, nd_v, nd_v.len() as int, b);
            assert(grouped_by_due(todos@, due_len as int, b));
            assert(well_grouped(todos@));
            assert forall|t: u64|
                1 <= t <= store@.tasks.len() && #[trigger] open_idx(store@.todos, t)
                    != -1 implies mem_id(todos@, t) by {
                if mem_id(due_v, t) {
                    let k0 = choose|k0: int|
                        0 <= k0 < due_v.len() && (#[trigger] due_v[k0]).1.id.0 == t;
                    assert(todos@[k0] == due_v[k0]);
                    assert((todos@[k0]).1.id.0 == t);
                } else {
                    let k0 = choose|k0: int|
                        0 <= k0 < nd_v.len() && (#[trigger] nd_v[k0]).1.id.0 == t;
                    assert((todos@[due_len + k0]).1.id.0 == t);
                }
            }
        }
        (todos, paused_tasks, and_more)
    } else if todos.len() > MAX_DUE {
        and_more = true;
        let picked = sample_due(&todos, Ghost(store@), Ghost(b));
        proof {
            assert(well_grouped(picked@));
        }
        (picked, paused_tasks, and_more)
    } else {
        let room = if todos.len() < MAX_NOT_DUE {
            MAX_NOT_DUE - todos.len()
        } else {
            0
        };
        let m = if todos_not_due.len() < room {
            todos_not_due.len()
        } else {
            room
        };
        append_pairs(&mut todos, &todos_not_due, m, Ghost(store@), Ghost(store@.last_task_id));
        proof {
            lemma_grouped_concat(todos@, due_v, nd_v, m as int, b);
            assert(grouped_by_due(todos@, due_len as int, b));
            assert(well_grouped(todos@));
        }
        (todos, paused_tasks, and_more)
    }
}

/// Thins an over-full due group to a random selection, kept in due order.
#[verifier::loop_isolation(false)]
#[verifier::rlimit(100)]
#[verifier::spinoff_prover]
fn sample_due(todos: &Vec<(Todo, Task)>, Ghost(s): Ghost<StoreV>, Ghost(b): Ghost<int>) -> (r:
    Vec<(Todo, Task)>)
    requires
        todos@.len() > MAX_DUE,
        pairs_ok(s, todos@, s.last_task_id),
        due_sorted(todos@, 0, todos@.len() as int),
        forall|k: int| 0 <= k < todos@.len() ==> (#[trigger] todos@[k]).0.due.nanos as int <= b,
    ensures
        pairs_ok(s, r@, s.last_task_id),
        r@.len() <= MAX_DUE as int,
        grouped_by_due(r@, r@.len() as int, b),
{
    let idxs = sample_indices(todos.len(), MAX_DUE);
    let tl = todos.len();
    let mut selected: Vec<bool> = Vec::new();
    let mut k: usize = 0;
    while k < tl
        invariant
            k <= tl,
            selected@.len() == k,
        decreases tl - k,
    {
        selected.push(false);
        k = k + 1;
    }
    let mut k: usize = 0;
    let il = idxs.len();
    while k < il
        invariant
            k <= il,
            il == idxs@.len(),
            selected@.len() == tl,
            tl == todos@.len(),
        decreases il - k,
    {
        let ix = idxs[k];
        selected.set(ix, true);
        k = k + 1;
    }
    let mut picked: Vec<(Todo, Task)> = Vec::new();
    let ghost mut ws: Seq<int> = Seq::empty();
    let mut k: usize = 0;
    while k < tl
        invariant
            k <= tl,
            tl == todos@.len(),
            selected@.len() == tl,
            ws.len() == picked@.len(),
            picked@.len() <= MAX_DUE,
            forall|q: int| 0 <= q < ws.len() ==> 0 <= #[trigger] ws[q] < k,
            forall|q: int, l: int| 0 <= q < l < ws.len() ==> ws[q] < ws[l],
            forall|q: int|
                0 <= q < picked@.len() ==> (#[trigger] picked@[q]).1.id.0 == todos@[ws[q]].1.id.0 && picked@[q].0.due == todos@[ws[q]].0.due
                    && listed_pair(s, picked@[q]) && picked@[q].1.id.0 <= s.last_task_id,
        decreases tl - k,
    {
        if selected[k] && picked.len() < MAX_DUE {
            let p = &todos[k];
            let cloned = (p.0.clone(), p.1.clone());
            proof {
                assert(cloned.0@ == p.0@);
                assert(cloned.1@ == p.1@);
                assert(cloned.1.id.0 == p.1.id.0);
                assert(cloned.0.due == p.0.due);
            }
            picked.push(cloned);
            proof {
                ws = ws.push(k as int);
            }
        }
        k = k + 1;
    }
    proof {
        assert forall|q: int, l: int|
            0 <= q < l < picked@.len() implies (#[trigger] picked@[q]).1.id.0 != (
            #[trigger] picked@[l]).1.id.0 by {
            assert(ws[q] < ws[l]);
            assert(todos@[ws[q]].1.id.0 != todos@[ws[l]].1.id.0);
        }
        assert forall|q: int, l: int|
            0 <= q < l < picked@.len() implies (#[trigger] picked@[q]).0.due.nanos <= (
            #[trigger] picked@[l]).0.due.nanos by {
            assert(ws[q] < ws[l]);
            assert(todos@[ws[q]].0.due.nanos <= todos@[ws[l]].0.due.nanos);
        }
        assert forall|q: int|
            0 <= q < picked@.len() implies (#[trigger] picked@[q]).0.due.nanos as int <= b
            by {
            assert(todos@[ws[q]].0.due.nanos as int <= b);
        }
        assert(grouped_by_due(picked@, picked@.len() as int, b));
    }
    picked
}


/// A due group followed by a prefix of a later group is grouped: the first
/// part unchanged, the second agreeing on due instants with the source.
proof fn lemma_grouped_concat(v: Seq<(Todo, Task)>, due_v: Seq<(Todo, Task)>, nd_v: Seq<
    (Todo, Task),
>, m: int, b: int)
    requires
        0 <= m <= nd_v.len(),
        v.len() == due_v.len() + m,
        forall|q: int| 0 <= q < due_v.len() ==> (#[trigger] v[q]) == due_v[q],
        forall|q: int|
            due_v.len() <= q < v.len() ==> (#[trigger] v[q]).0.due == nd_v[q - due_v.len()].0.due,
        forall|k: int| 0 <= k < due_v.len() ==> (#[trigger] due_v[k]).0.due.nanos as int <= b,
        forall|k: int| 0 <= k < nd_v.len() ==> (#[trigger] nd_v[k]).0.due.nanos as int > b,
        due_sorted(due_v, 0, due_v.len() as int),
        due_sorted(nd_v, 0, nd_v.len() as int),
    ensures
        grouped_by_due(v, due_v.len() as int, b),
{
    let dl = due_v.len() as int;
    assert forall|i: int| 0 <= i < dl implies (#[trigger] v[i]).0.due.nanos as int <= b by {
        assert(v[i] == due_v[i]);
    }
    assert forall|i: int| dl <= i < v.len() implies (#[trigger] v[i]).0.due.nanos as int > b
        by {
        assert(v[i].0.due == nd_v[i - dl].0.due);
    }
    assert forall|i: int, j: int|
        0 <= i < j < dl implies (#[trigger] v[i]).0.due.nanos <= (#[trigger] v[j]).0.due.nanos
        by {
        assert(v[i] == due_v[i]);
        assert(v[j] == due_v[j]);
    }
    assert forall|i: int, j: int|
        dl <= i < j < v.len() implies (#[trigger] v[i]).0.due.nanos <= (
        #[trigger] v[j]).0.due.nanos by {
        assert(v[i].0.due == nd_v[i - dl].0.due);
        assert(v[j].0.due == nd_v[j - dl].0.due);
        assert(nd_v[i - dl].0.due.nanos <= nd_v[j - dl].0.due.nanos);
    }
}

/// The listing line of a paused task: its id padded to the given width,
/// then its title.
pub open spec fn paused_line(id: u64, width: int, title: Seq<char>) -> Seq<char> {
    let d = dec_text(id as int);
    let padded: Seq<char> = if d.len() < width {
        Seq::new((width - d.len()) as nat, |q: int| ' ') + d
    } else {
        d
    };
    padded + seq![' '] + title + seq!['\n']
}

/// Renders the listing line of a paused task.
#[verifier::loop_isolation(false)]
pub fn write_paused_task(width: usize, task: &Task) -> (r: String)
    ensures
        r@ == paused_line(task.id.0, width as int, task.title@),
{
    let mut d: Vec<char> = Vec::new();
    crate::logline::push_u64(&mut d, task.id.0);
    let mut out: Vec<char> = Vec::new();
    let dl = d.len();
    if dl < width {
        let pad = width - dl;
        let mut k: usize = 0;
        while k < pad
            invariant
                k <= pad,
                out@ =~= Seq::new(k as nat, |q: int| ' '),
            decreases pad - k,
        {
            out.push(' ');
            proof {
                assert(out@ =~= Seq::new((k + 1) as nat, |q: int| ' '));
            }
            k = k + 1;
        }
    }
    let mut k: usize = 0;
    let ghost base = out@;
    while k < dl
        invariant
            k <= dl,
            dl == d@.len(),
            out@ == base + d@.take(k as int),
        decreases dl - k,
    {
        out.push(d[k]);
        proof {
            assert(out@ =~= base + d@.take(k + 1));
        }
        k = k + 1;
    }
    proof {
        assert(d@.take(dl as int) =~= d@);
    }
    out.push(' ');
    let tv = crate::logline::str_chars(task.title.as_str());
    let tl = tv.len();
    let mut k: usize = 0;
    let ghost base2 = out@;
    while k < tl
        invariant
            k <= tl,
            tl == tv@.len(),
            out@ == base2 + tv@.take(k as int),
        decreases tl - k,
    {
        out.push(tv[k]);
        proof {
            assert(out@ =~= base2 + tv@.take(k + 1));
        }
        k = k + 1;
    }
    proof {
        assert(tv@.take(tl as int) =~= tv@);
    }
    out.push('\n');
    proof {
        assert(out@ =~= paused_line(task.id.0, width as int, task.title@));
    }
    crate::logline::chars_string(&out)
}

} // verus!
