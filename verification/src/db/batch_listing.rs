//! Operations on the tasks of a batch.

use crate::db::task_lifecycle::{batch_tasks, batch_tasks_in, no_batch_message};
use crate::error::{ArcRunError, ErrorView};
use crate::models::{rows, Rules, StatusKind, StrategyView, Task, TaskRow};
use crate::rule::{keyed, keyed_rule};
use crate::tally::{count, lemma_count_len, lemma_count_take, lemma_sum_take, sum};
use crate::text::{same_text, uuid_to_string};
use vstd::prelude::*;

verus! {

/// The tasks of a kind in a batch that have not started.
pub open spec fn unstarted(batch: u128, kind: Seq<char>) -> spec_fn(TaskRow) -> bool {
    |r: TaskRow|
        r.batch_id == Some(batch) && r.kind == kind && (r.status == StatusKind::Waiting || r.status
            == StatusKind::Pending || r.status == StatusKind::Paused)
}

/// A task with new rules.
pub open spec fn ruled_row(batch: u128, kind: Seq<char>, rules: Seq<StrategyView>) -> spec_fn(
    TaskRow,
) -> TaskRow {
    |r: TaskRow|
        if unstarted(batch, kind)(r) {
            TaskRow { rules, ..r }
        } else {
            r
        }
}

/// New rules take the slots that each task's own metadata name: the same rule may key
/// two tasks of a batch differently.
pub proof fn new_rules_are_keyed_by_own_metadata(
    batch: u128,
    kind: Seq<char>,
    rules: Seq<StrategyView>,
    t: TaskRow,
)
    requires
        unstarted(batch, kind)(t),
    ensures
        keyed(ruled_row(batch, kind, rules)(t)).len() == rules.len(),
        forall|i: int|
            0 <= i < rules.len() ==> #[trigger] keyed(ruled_row(batch, kind, rules)(t))[i]
                == keyed_rule(rules[i], t.metadata),
{
    reveal(keyed);
}

/// Replaces the rules of the tasks of a kind in a batch that have not started. Tasks
/// that have keep the rules and slots that they started with. Returns how many were
/// changed; refused where the batch has no tasks.
pub fn update_batch_rules(
    tasks: &mut Vec<Task>,
    batch_id: u128,
    kind: &str,
    new_rules: &Rules,
) -> (r: Result<usize, ArcRunError>)
    ensures
        ({
            let before = rows(old(tasks)@);
            match r {
                Ok(n) => {
                    &&& count(before, batch_tasks(batch_id)) > 0
                    &&& n == count(before, unstarted(batch_id, kind@))
                    &&& rows(final(tasks)@) == before.map_values(
                        ruled_row(batch_id, kind@, new_rules@),
                    )
                },
                Err(e) => {
                    &&& count(before, batch_tasks(batch_id)) == 0
                    &&& e@ == ErrorView::NotFound(no_batch_message(batch_id))
                    &&& rows(final(tasks)@) == before
                },
            }
        }),
{
    let ghost before = tasks@;
    let ghost rs = rows(before);
    let ghost step = ruled_row(batch_id, kind@, new_rules@);
    let ghost p = unstarted(batch_id, kind@);
    let mut found: bool = false;
    let mut n: usize = 0;
    let mut i: usize = 0;
    while i < tasks.len()
        invariant
            i <= tasks.len(),
            tasks@.len() == before.len(),
            rs == rows(before),
            step == ruled_row(batch_id, kind@, new_rules@),
            p == unstarted(batch_id, kind@),
            forall|k: int| 0 <= k < i ==> (#[trigger] tasks@[k])@ == step(before[k]@),
            forall|k: int| i <= k < before.len() ==> (#[trigger] tasks@[k]) == before[k],
            n == count(rs.take(i as int), p),
            n <= i,
            found == (count(rs.take(i as int), batch_tasks(batch_id)) > 0),
        decreases tasks.len() - i,
    {
        proof {
            lemma_count_take(rs, p, i as int);
            lemma_count_take(rs, batch_tasks(batch_id), i as int);
            assert(tasks@[i as int] == before[i as int]);
            assert(rs[i as int] == before[i as int]@);
        }
        let mine: bool = match tasks[i].batch_id {
            Some(b) => b == batch_id,
            None => false,
        };
        if mine {
            found = true;
            let waits: bool = match tasks[i].status {
                StatusKind::Waiting => true,
                StatusKind::Pending => true,
                StatusKind::Paused => true,
                _ => false,
            };
            if waits && same_text(tasks[i].kind.as_str(), kind) {
                tasks[i].start_condition = new_rules.clone();
                n += 1;
            }
        }
        i += 1;
    }
    proof {
        assert(rs.take(i as int) =~= rs);
        assert(rows(tasks@) =~= rs.map_values(step));
    }
    if !found {
        proof {
            crate::tally::lemma_count_zero(rs, batch_tasks(batch_id));
            assert forall|k: int| 0 <= k < rs.len() implies step(rs[k]) == rs[k] by {
                assert(!batch_tasks(batch_id)(rs[k]));
            }
            assert(rs.map_values(step) =~= rs);
        }
        return Err(
            ArcRunError::NotFound {
                message: "No tasks found for batch ".to_string().concat(
                    uuid_to_string(batch_id).as_str(),
                ),
            },
        );
    }
    Ok(n)
}

/// The counters of a batch.
#[derive(Clone, Copy, Debug, PartialEq, Eq, Structural)]
pub struct BatchStats {
    /// Successes of its tasks.
    pub total_success: i64,
    /// Failures of its tasks.
    pub total_failures: i64,
    /// Items that its tasks expect, as far as they say.
    pub total_expected: i64,
    /// Its tasks.
    pub total: i64,
    /// Waiting tasks.
    pub waiting: i64,
    /// Pending tasks.
    pub pending: i64,
    /// Claimed tasks.
    pub claimed: i64,
    /// Running tasks.
    pub running: i64,
    /// Paused tasks.
    pub paused: i64,
    /// Tasks that succeeded.
    pub success: i64,
    /// Tasks that failed.
    pub failure: i64,
    /// Canceled tasks.
    pub canceled: i64,
}

/// The successes that a task adds to its batch.
pub open spec fn successes_in(batch: u128) -> spec_fn(TaskRow) -> int {
    |r: TaskRow|
        if r.batch_id == Some(batch) {
            r.success
        } else {
            0
        }
}

/// The failures that a task adds to its batch.
pub open spec fn failures_in(batch: u128) -> spec_fn(TaskRow) -> int {
    |r: TaskRow|
        if r.batch_id == Some(batch) {
            r.failures
        } else {
            0
        }
}

/// The expected items that a task adds to its batch.
pub open spec fn expected_in(batch: u128) -> spec_fn(TaskRow) -> int {
    |r: TaskRow|
        if r.batch_id == Some(batch) && r.expected_count is Some {
            r.expected_count->0
        } else {
            0
        }
}

/// `b` holds the counters of a batch.
pub open spec fn stats_of(tasks: Seq<TaskRow>, batch: u128, b: BatchStats) -> bool {
    &&& b.total_success == sum(tasks, successes_in(batch))
    &&& b.total_failures == sum(tasks, failures_in(batch))
    &&& b.total_expected == sum(tasks, expected_in(batch))
    &&& b.total == count(tasks, batch_tasks(batch))
    &&& b.waiting == count(tasks, batch_tasks_in(batch, StatusKind::Waiting))
    &&& b.pending == count(tasks, batch_tasks_in(batch, StatusKind::Pending))
    &&& b.claimed == count(tasks, batch_tasks_in(batch, StatusKind::Claimed))
    &&& b.running == count(tasks, batch_tasks_in(batch, StatusKind::Running))
    &&& b.paused == count(tasks, batch_tasks_in(batch, StatusKind::Paused))
    &&& b.success == count(tasks, batch_tasks_in(batch, StatusKind::Success))
    &&& b.failure == count(tasks, batch_tasks_in(batch, StatusKind::Failure))
    &&& b.canceled == count(tasks, batch_tasks_in(batch, StatusKind::Canceled))
}

/// What one more task leaves of the counters.
proof fn lemma_stats_step(tasks: Seq<TaskRow>, batch: u128, i: int)
    requires
        0 <= i < tasks.len(),
    ensures
        ({
            let a = tasks.take(i);
            let b = tasks.take(i + 1);
            let r = tasks[i];
            let mine = r.batch_id == Some(batch);
            let one = |s: StatusKind|
                if mine && r.status == s {
                    1nat
                } else {
                    0nat
                };
            &&& sum(b, successes_in(batch)) == sum(a, successes_in(batch)) + successes_in(batch)(r)
            &&& sum(b, failures_in(batch)) == sum(a, failures_in(batch)) + failures_in(batch)(r)
            &&& sum(b, expected_in(batch)) == sum(a, expected_in(batch)) + expected_in(batch)(r)
            &&& count(b, batch_tasks(batch)) == count(a, batch_tasks(batch)) + if mine {
                1nat
            } else {
                0nat
            }
            &&& forall|s: StatusKind| #[trigger]
                count(b, batch_tasks_in(batch, s)) == count(a, batch_tasks_in(batch, s)) + one(s)
        }),
{
    lemma_sum_take(tasks, successes_in(batch), i);
    lemma_sum_take(tasks, failures_in(batch), i);
    lemma_sum_take(tasks, expected_in(batch), i);
    lemma_count_take(tasks, batch_tasks(batch), i);
    let r = tasks[i];
    let mine = r.batch_id == Some(batch);
    assert forall|s: StatusKind| #[trigger]
        count(tasks.take(i + 1), batch_tasks_in(batch, s)) == count(
            tasks.take(i),
            batch_tasks_in(batch, s),
        ) + if mine && r.status == s {
            1nat
        } else {
            0nat
        } by {
        lemma_count_take(tasks, batch_tasks_in(batch, s), i);
    }
}

/// The counters of a batch; `None` where it has no tasks.
pub fn get_batch_stats(tasks: &Vec<Task>, batch_id: u128) -> (r: Option<BatchStats>)
    requires
        tasks@.len() <= i32::MAX,
    ensures
        match r {
            None => count(rows(tasks@), batch_tasks(batch_id)) == 0,
            Some(b) => b.total > 0 && stats_of(rows(tasks@), batch_id, b),
        },
{
    let ghost rs = rows(tasks@);
    let mut b: BatchStats = BatchStats {
        total_success: 0,
        total_failures: 0,
        total_expected: 0,
        total: 0,
        waiting: 0,
        pending: 0,
        claimed: 0,
        running: 0,
        paused: 0,
        success: 0,
        failure: 0,
        canceled: 0,
    };
    let mut i: usize = 0;
    while i < tasks.len()
        invariant
            i <= tasks.len(),
            tasks@.len() <= i32::MAX,
            rs == rows(tasks@),
            stats_of(rs.take(i as int), batch_id, b),
            -0x8000_0000 * i <= b.total_success <= 0x8000_0000 * i,
            -0x8000_0000 * i <= b.total_failures <= 0x8000_0000 * i,
            -0x8000_0000 * i <= b.total_expected <= 0x8000_0000 * i,
        decreases tasks.len() - i,
    {
        proof {
            let few = rs.take(i as int);
            lemma_stats_step(rs, batch_id, i as int);
            assert(rs[i as int] == tasks@[i as int]@);
            lemma_count_len(few, batch_tasks(batch_id));
            assert forall|s: StatusKind| #[trigger]
                count(few, batch_tasks_in(batch_id, s)) <= few.len() by {
                lemma_count_len(few, batch_tasks_in(batch_id, s));
            }
        }
        let mine: bool = match tasks[i].batch_id {
            Some(x) => x == batch_id,
            None => false,
        };
        if mine {
            b.total_success = b.total_success + tasks[i].success as i64;
            b.total_failures = b.total_failures + tasks[i].failures as i64;
            if let Some(c) = tasks[i].expected_count {
                b.total_expected = b.total_expected + c as i64;
            }
            b.total = b.total + 1;
            match tasks[i].status {
                StatusKind::Waiting => {
                    b.waiting = b.waiting + 1;
                },
                StatusKind::Pending => {
                    b.pending = b.pending + 1;
                },
                StatusKind::Claimed => {
                    b.claimed = b.claimed + 1;
                },
                StatusKind::Running => {
                    b.running = b.running + 1;
                },
                StatusKind::Paused => {
                    b.paused = b.paused + 1;
                },
                StatusKind::Success => {
                    b.success = b.success + 1;
                },
                StatusKind::Failure => {
                    b.failure = b.failure + 1;
                },
                StatusKind::Canceled => {
                    b.canceled = b.canceled + 1;
                },
            }
        }
        i += 1;
    }
    assert(rs.take(i as int) =~= rs);
    if b.total == 0 {
        None
    } else {
        Some(b)
    }
}

} // verus!
