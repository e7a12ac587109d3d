//! The event-log protocol around the engine: every mutating call appends
//! one rendered line, and a fresh engine is rebuilt by replaying lines.
//!
//! Replay is log-silent: a replayed line re-applies the operation without
//! appending.  For the id-checked operations the ids recorded in the line
//! must match what a fresh application allocates; any unreadable line, any
//! unknown operation name and any mismatch is fatal and stops the replay.

use vstd::prelude::*;
use crate::clock::now_nanos;
use crate::data::{
    Span, TaskId, TodoCompleted, TodoDate, TodoId, clock_in_range, date_in_range,
    due_in_range, fixed_span_in_range,
};
use crate::due_guesser::spec_guess_later;
use crate::engine::{
    AllesattInner, EngineV, completed_of, tr_clone_task, tr_complete_todo, tr_create_task,
    tr_pause_task, tr_todo_later, tr_unpause_task,
};
use crate::logline::{
    LogRecord, RecordV, record_wf, render_record, render_record_text, parse_line,
    spec_parse_line, valid_title,
};
use crate::mem_store::{EngineError, MemStore, idx_of, matches_filters, open_idx};

verus! {

/// Why a replay stopped: fatal conditions, never skipped or repaired.
#[derive(Clone, Copy, PartialEq, Eq, Debug, Structural)]
pub enum ReplayError {
    /// The line does not read as any known operation.
    BadLine,
    /// The ids recorded in the line differ from the freshly assigned ones.
    IdMismatch,
    /// The id space is used up, so the recorded call cannot be re-applied.
    IdsExhausted,
    /// The line completes a todo that is already completed.
    AlreadyCompleted,
    /// The line unpauses a task that still has an open todo.
    TaskActive,
    /// The re-applied operation itself failed.
    Op(EngineError),
}

/// What one replayed record does to the engine state, given the instant the
/// replay reads from the clock; `None` is a fatal replay error.
#[verifier::opaque]
pub open spec fn apply_record(s: EngineV, r: RecordV, now: int) -> Option<EngineV> {
    match r {
        RecordV::CreateTask { title, due_every, task_id, todo_id } => {
            if s.store.tasks.len() < u64::MAX && s.store.last_todo_id < u64::MAX && task_id
                == (s.store.tasks.len() + 1) as u64 && todo_id == (s.store.last_todo_id
                + 1) as u64 {
                Some(
                    tr_create_task(
                        s,
                        title,
                        match due_every {
                            Some(d) => Some(Span { nanos: d as i128 }),
                            None => None,
                        },
                        now,
                    ),
                )
            } else {
                None
            }
        },
        RecordV::CloneTask { task_id, title, new_task_id, todo_id } => {
            if s.store.has_task(task_id) && open_idx(s.store.todos, task_id) != -1
                && s.store.tasks.len() < u64::MAX && s.store.last_todo_id + s.store.todos.len()
                + 1 <= u64::MAX && new_task_id == (s.store.tasks.len() + 1) as u64 && todo_id
                == (s.store.last_todo_id + completed_of(s.store.todos, task_id).len()
                + 1) as u64 {
                Some(tr_clone_task(s, task_id, title))
            } else {
                None
            }
        },
        RecordV::CompleteTodo { todo_id, completed } => {
            let i = idx_of(s.store.todos, todo_id);
            if i != -1 && s.store.todos[i].completed is None && s.store.last_todo_id
                < u64::MAX {
                Some(tr_complete_todo(s, todo_id, TodoDate { nanos: completed as i128 }))
            } else {
                None
            }
        },
        RecordV::TodoLater { todo_id } => {
            if idx_of(s.store.todos, todo_id) != -1 && due_in_range(
                spec_guess_later(s.guesser, s.store, todo_id, now),
            ) {
                Some(tr_todo_later(s, todo_id, now))
            } else {
                None
            }
        },
        RecordV::PauseTask { task_id } => {
            if open_idx(s.store.todos, task_id) != -1 {
                Some(tr_pause_task(s, task_id))
            } else {
                None
            }
        },
        RecordV::UnpauseTask { task_id } => {
            if s.store.has_task(task_id) && open_idx(s.store.todos, task_id) == -1
                && s.store.last_todo_id < u64::MAX {
                Some(tr_unpause_task(s, task_id, now))
            } else {
                None
            }
        },
    }
}

/// The fatal condition one unreplayable record reports, mirroring the
/// order the checks run in: id space, recorded ids, then the operation's
/// own failure.
#[verifier::opaque]
pub open spec fn replay_err_of(s: EngineV, r: RecordV, now: int) -> ReplayError {
    match r {
        RecordV::CreateTask { .. } => {
            if !(s.store.tasks.len() < u64::MAX && s.store.last_todo_id < u64::MAX) {
                ReplayError::IdsExhausted
            } else {
                ReplayError::IdMismatch
            }
        },
        RecordV::CloneTask { task_id, new_task_id, todo_id, .. } => {
            if !(s.store.tasks.len() < u64::MAX && s.store.last_todo_id < u64::MAX
                && s.store.todos.len() < u64::MAX - s.store.last_todo_id) {
                ReplayError::IdsExhausted
            } else if !(new_task_id == (s.store.tasks.len() + 1) as u64 && todo_id == (
            s.store.last_todo_id + completed_of(s.store.todos, task_id).len() + 1) as u64) {
                ReplayError::IdMismatch
            } else if !s.store.has_task(task_id) {
                ReplayError::Op(EngineError::TaskNotFound)
            } else {
                ReplayError::Op(EngineError::TaskPaused)
            }
        },
        RecordV::CompleteTodo { todo_id, .. } => {
            if !(s.store.last_todo_id < u64::MAX) {
                ReplayError::IdsExhausted
            } else if idx_of(s.store.todos, todo_id) == -1 {
                ReplayError::Op(EngineError::TodoNotFound)
            } else {
                ReplayError::AlreadyCompleted
            }
        },
        RecordV::TodoLater { todo_id } => {
            if idx_of(s.store.todos, todo_id) == -1 {
                ReplayError::Op(EngineError::TodoNotFound)
            } else {
                ReplayError::Op(EngineError::DueOutOfRange)
            }
        },
        RecordV::PauseTask { .. } => ReplayError::Op(EngineError::TaskNotFoundOrPaused),
        RecordV::UnpauseTask { task_id } => {
            if !(s.store.last_todo_id < u64::MAX) {
                ReplayError::IdsExhausted
            } else if !s.store.has_task(task_id) {
                ReplayError::Op(EngineError::TaskNotFound)
            } else {
                ReplayError::TaskActive
            }
        },
    }
}

/// Replaying a list of lines, given the instants read along the way.
pub open spec fn replay_seq(s: EngineV, lines: Seq<Seq<char>>, nows: Seq<int>) -> Option<
    EngineV,
>
    decreases lines.len(),
{
    if lines.len() == 0 {
        Some(s)
    } else {
        match spec_parse_line(lines[0]) {
            None => None,
            Some(rec) => match apply_record(s, rec, nows[0]) {
                None => None,
                Some(s2) => replay_seq(s2, lines.drop_first(), nows.drop_first()),
            },
        }
    }
}

/// Applying a list of records directly, given the instants.
pub open spec fn apply_seq(s: EngineV, records: Seq<RecordV>, nows: Seq<int>) -> Option<
    EngineV,
>
    decreases records.len(),
{
    if records.len() == 0 {
        Some(s)
    } else {
        match apply_record(s, records[0], nows[0]) {
            None => None,
            Some(s2) => apply_seq(s2, records.drop_first(), nows.drop_first()),
        }
    }
}

/// Law: replay determinism at the log level — replaying the rendered lines
/// of any well-formed records does exactly what applying the records does,
/// for the same clock instants.  With each operation's own contract (the
/// line it appends replays, from the state it saw, to the state it left)
/// this reproduces a live run from its log.
pub proof fn lemma_replay_lines(s: EngineV, records: Seq<RecordV>, nows: Seq<int>)
    requires
        forall|i: int| 0 <= i < records.len() ==> record_wf(#[trigger] records[i]),
    ensures
        replay_seq(s, records.map_values(|r: RecordV| render_record_text(r)), nows)
            == apply_seq(s, records, nows),
    decreases records.len(),
{
    let lines = records.map_values(|r: RecordV| render_record_text(r));
    if records.len() > 0 {
        crate::logline::lemma_parse_render(records[0]);
        assert(lines[0] == render_record_text(records[0]));
        assert(lines.drop_first() =~= records.drop_first().map_values(
            |r: RecordV| render_record_text(r),
        ));
        match apply_record(s, records[0], nows[0]) {
            None => {},
            Some(s2) => {
                assert(forall|i: int|
                    0 <= i < records.drop_first().len() ==> record_wf(
                        #[trigger] records.drop_first()[i],
                    ));
                lemma_replay_lines(s2, records.drop_first(), nows.drop_first());
            },
        }
    }
}

/// Re-applies one already-parsed record; log-silent.  Mutates nothing when
/// it fails.
pub fn replay_record(engine: &mut AllesattInner, rec: &LogRecord, now: TodoDate) -> (r: Result<
    (),
    ReplayError,
>)
    requires
        old(engine).wf(),
        record_wf(rec@),
        clock_in_range(now.nanos as int),
    ensures
        final(engine).wf(),
        match r {
            Ok(()) => apply_record(old(engine)@, rec@, now.nanos as int) =~~= Some(
                final(engine)@,
            ),
            Err(e) => apply_record(old(engine)@, rec@, now.nanos as int) is None
                && final(engine)@ == old(engine)@ && e == replay_err_of(
                old(engine)@,
                rec@,
                now.nanos as int,
            ),
        },
{
    proof {
        reveal(replay_err_of);
        reveal(apply_record);
    }
    let ghost s0 = engine@;
    match rec {
        LogRecord::CreateTask { title, due_every, task_id, todo_id } => {
            let (lt, ld, _tc) = engine.counts();
            if !(lt < u64::MAX && ld < u64::MAX) {
                return Err(ReplayError::IdsExhausted);
            }
            if !(task_id.0 == lt + 1 && todo_id.0 == ld + 1) {
                return Err(ReplayError::IdMismatch);
            }
            let (tid, oid) = engine.create_task_at(title.clone(), *due_every, now);
            proof {
                assert(apply_record(s0, rec@, now.nanos as int) =~~= Some(engine@));
            }
            Ok(())
        },
        LogRecord::CloneTask { task_id, title, new_task_id, todo_id } => {
            let (lt, ld, tc) = engine.counts();
            if !(lt < u64::MAX && ld < u64::MAX && (tc as u64) < u64::MAX - ld) {
                return Err(ReplayError::IdsExhausted);
            }
            let done = engine.get_store().get_todos(Some(task_id), Some(true));
            let n = done.len();
            proof {
                let c1 = |t: crate::data::TodoV| matches_filters(
                    t,
                    crate::mem_store::opt_task_filter(Some(task_id)),
                    Some(true),
                );
                let c2 = |t: crate::data::TodoV| matches_filters(t, Some(task_id.0), Some(true));
                assert forall|t: crate::data::TodoV| #[trigger] c1(t) == c2(t) by {}
                assert(c1 =~= c2);
                assert(done@.map_values(|t: crate::data::Todo| t@) == completed_of(
                    s0.store.todos,
                    task_id.0,
                ));
                s0.store.todos.lemma_filter_len(c2);
            }
            if !(new_task_id.0 == lt + 1 && todo_id.0 == ld + n as u64 + 1) {
                return Err(ReplayError::IdMismatch);
            }
            match engine.clone_task(task_id, title.clone()) {
                Ok((tid, oid)) => {
                    proof {
                        assert(apply_record(s0, rec@, now.nanos as int) =~~= Some(engine@));
                    }
                    Ok(())
                },
                Err(e) => Err(ReplayError::Op(e)),
            }
        },
        LogRecord::CompleteTodo { todo_id, completed } => {
            let (lt, ld, _tc) = engine.counts();
            if !(ld < u64::MAX) {
                return Err(ReplayError::IdsExhausted);
            }
            match engine.get_store().get_todo(todo_id) {
                Some(t) => {
                    if t.completed.is_some() {
                        return Err(ReplayError::AlreadyCompleted);
                    }
                },
                None => {
                    return Err(ReplayError::Op(EngineError::TodoNotFound));
                },
            }
            match engine.complete_todo(todo_id, *completed) {
                Ok(()) => {
                    proof {
                        assert(apply_record(s0, rec@, now.nanos as int) =~~= Some(engine@));
                    }
                    Ok(())
                },
                Err(e) => Err(ReplayError::Op(e)),
            }
        },
        LogRecord::TodoLater { todo_id } => {
            match engine.todo_later_at(todo_id, now) {
                Ok(()) => {
                    proof {
                        assert(apply_record(s0, rec@, now.nanos as int) =~~= Some(engine@));
                    }
                    Ok(())
                },
                Err(e) => Err(ReplayError::Op(e)),
            }
        },
        LogRecord::PauseTask { task_id } => {
            match engine.pause_task(task_id) {
                Ok(()) => {
                    proof {
                        assert(apply_record(s0, rec@, now.nanos as int) =~~= Some(engine@));
                    }
                    Ok(())
                },
                Err(e) => Err(ReplayError::Op(e)),
            }
        },
        LogRecord::UnpauseTask { task_id } => {
            let (lt, ld, _tc) = engine.counts();
            if !(ld < u64::MAX) {
                return Err(ReplayError::IdsExhausted);
            }
            proof {
                engine.lemma_wf_store();
            }
            match engine.get_store().get_task(task_id) {
                Some(_) => {},
                None => {
                    return Err(ReplayError::Op(EngineError::TaskNotFound));
                },
            }
            match engine.get_store().find_open_todo(task_id) {
                Some(_) => {
                    return Err(ReplayError::TaskActive);
                },
                None => {},
            }
            let oid = engine.unpause_task_at(task_id, now);
            proof {
                assert(apply_record(s0, rec@, now.nanos as int) =~~= Some(engine@));
            }
            Ok(())
        },
    }
}

/// Replays a whole log, line by line from the beginning, reading the clock
/// once per line; the first bad line aborts the replay.
#[verifier::loop_isolation(false)]
#[verifier::rlimit(100)]
#[verifier::spinoff_prover]
pub fn play_back(engine: &mut AllesattInner, lines: &Vec<String>) -> (r: Result<
    (),
    ReplayError,
>)
    requires
        old(engine).wf(),
    ensures
        final(engine).wf(),
        match r {
            Ok(()) => exists|nows: Seq<int>|
                #![trigger nows.len()]
                nows.len() == lines@.len() && replay_seq(
                    old(engine)@,
                    lines@.map_values(|l: String| l@),
                    nows,
                ) =~~= Some(final(engine)@),
            Err(_) => exists|nows: Seq<int>|
                #![trigger nows.len()]
                nows.len() == lines@.len() && replay_seq(
                    old(engine)@,
                    lines@.map_values(|l: String| l@),
                    nows,
                ) is None,
        },
{
    let ghost views = lines@.map_values(|l: String| l@);
    let ghost s0 = engine@;
    let ghost mut nows: Seq<int> = Seq::empty();
    let n = lines.len();
    let mut i: usize = 0;
    proof {
        assert forall|rest: Seq<int>|
            #![trigger nows + rest]
            replay_seq(s0, views, nows + rest) == replay_seq(
                engine@,
                views.skip(0),
                rest,
            ) by {
            assert(nows + rest =~= rest);
            assert(views.skip(0) =~= views);
        }
    }
    while i < n
        invariant
            i <= n,
            engine.wf(),
            nows.len() == i,
            forall|k: int| 0 <= k < i ==> clock_in_range(#[trigger] nows[k]),
            forall|rest: Seq<int>|
                #![trigger nows + rest]
                replay_seq(s0, views, nows + rest) == replay_seq(
                    engine@,
                    views.skip(i as int),
                    rest,
                ),
        decreases n - i,
    {
        let now = TodoDate { nanos: now_nanos() };
        let line = &lines[i];
        let ghost pre = engine@;
        let rec = match parse_line(line.as_str()) {
            Some(rec) => rec,
            None => {
                proof {
                    let more = Seq::new((n - i) as nat, |k: int| 0int);
                    lemma_replay_head_none(s0, pre, views, nows, more, i as int);
                    assert(nows.len() + more.len() == views.len());
                }
                return Err(ReplayError::BadLine);
            },
        };
        let res = replay_record(engine, &rec, now);
        proof {
            assert(views.skip(i as int)[0] == views[i as int]);
            assert(views[i as int] == line@);
        }
        match res {
            Ok(()) => {},
            Err(e) => {
                proof {
                    let more = Seq::new((n - i) as nat, |k: int| if k == 0 { now.nanos as int } else { 0int });
                    lemma_replay_head_fail(s0, pre, views, nows, more, i as int, rec@, now.nanos as int);
                    assert(nows.len() + more.len() == views.len());
                }
                return Err(e);
            },
        }
        proof {
            lemma_replay_step(s0, pre, engine@, views, nows, i as int, now.nanos as int, rec@);
            nows = nows.push(now.nanos as int);
        }
        i = i + 1;
    }
    proof {
        assert(views.skip(n as int) =~= Seq::<Seq<char>>::empty());
        assert(nows + Seq::<int>::empty() =~= nows);
        assert(replay_seq(engine@, views.skip(n as int), Seq::<int>::empty()) == Some(
            engine@,
        ));
    }
    Ok(())
}

/// Stepping a replay past one good line extends the clock-read prefix.
#[verifier::rlimit(100)]
#[verifier::spinoff_prover]
proof fn lemma_replay_step(s0: EngineV, pre: EngineV, post: EngineV, views: Seq<Seq<char>>, nows: Seq<int>, i: int, now: int, rec: RecordV)
    requires
        0 <= i < views.len(),
        spec_parse_line(views[i]) == Some(rec),
        apply_record(pre, rec, now) == Some(post),
        forall|rest: Seq<int>|
            #![trigger nows + rest]
            replay_seq(s0, views, nows + rest) == replay_seq(pre, views.skip(i), rest),
    ensures
        forall|rest: Seq<int>|
            #![trigger nows.push(now) + rest]
            replay_seq(s0, views, nows.push(now) + rest) == replay_seq(
                post,
                views.skip(i + 1),
                rest,
            ),
{
    assert forall|rest: Seq<int>|
        #![trigger nows.push(now) + rest]
        replay_seq(s0, views, nows.push(now) + rest) == replay_seq(
            post,
            views.skip(i + 1),
            rest,
        ) by {
        lemma_replay_step_one(s0, pre, post, views, nows, i, now, rec, rest);
    }
}

/// One clock-read extension of a replay, for a single continuation.
#[verifier::rlimit(100)]
#[verifier::spinoff_prover]
proof fn lemma_replay_step_one(s0: EngineV, pre: EngineV, post: EngineV, views: Seq<Seq<char>>, nows: Seq<int>, i: int, now: int, rec: RecordV, rest: Seq<int>)
    requires
        0 <= i < views.len(),
        spec_parse_line(views[i]) == Some(rec),
        apply_record(pre, rec, now) == Some(post),
        forall|rest2: Seq<int>|
            #![trigger nows + rest2]
            replay_seq(s0, views, nows + rest2) == replay_seq(pre, views.skip(i), rest2),
    ensures
        replay_seq(s0, views, nows.push(now) + rest) == replay_seq(
            post,
            views.skip(i + 1),
            rest,
        ),
{
    assert(nows.push(now) + rest =~= nows + (seq![now] + rest));
    assert(replay_seq(s0, views, nows + (seq![now] + rest)) == replay_seq(
        pre,
        views.skip(i),
        seq![now] + rest,
    ));
    assert(views.skip(i)[0] == views[i]);
    assert(views.skip(i).drop_first() =~= views.skip(i + 1));
    assert((seq![now] + rest)[0] == now);
    assert((seq![now] + rest).drop_first() =~= rest);
}

/// A replay whose next line does not parse fails however the clock goes on.
proof fn lemma_replay_head_none(s0: EngineV, pre: EngineV, views: Seq<Seq<char>>, nows: Seq<
    int,
>, more: Seq<int>, i: int)
    requires
        0 <= i < views.len(),
        spec_parse_line(views[i]) is None,
        forall|rest: Seq<int>|
            #![trigger nows + rest]
            replay_seq(s0, views, nows + rest) == replay_seq(pre, views.skip(i), rest),
    ensures
        replay_seq(s0, views, nows + more) is None,
{
    assert(views.skip(i)[0] == views[i]);
    assert(replay_seq(pre, views.skip(i), more) is None);
}

/// A replay whose next record cannot be applied fails for the instant that
/// was read.
proof fn lemma_replay_head_fail(s0: EngineV, pre: EngineV, views: Seq<Seq<char>>, nows: Seq<
    int,
>, more: Seq<int>, i: int, rec: RecordV, now: int)
    requires
        0 <= i < views.len(),
        more.len() >= 1,
        more[0] == now,
        spec_parse_line(views[i]) == Some(rec),
        apply_record(pre, rec, now) is None,
        forall|rest: Seq<int>|
            #![trigger nows + rest]
            replay_seq(s0, views, nows + rest) == replay_seq(pre, views.skip(i), rest),
    ensures
        replay_seq(s0, views, nows + more) is None,
{
    assert(views.skip(i)[0] == views[i]);
    assert(replay_seq(pre, views.skip(i), more) is None);
}

} // verus!
