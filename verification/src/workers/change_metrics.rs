//! What is counted of a transaction: its status changes, the tasks that it created, and
//! the deliveries that it recorded.

use crate::metrics::{
    bumped, counter_series, counter_value, record_batch_completed, record_dependency_propagation,
    record_status_transition, record_task_canceled_dead_end, record_task_cancelled,
    record_task_created, record_task_deduped, record_task_failed_by_dependency,
    record_task_timeout, record_task_unblocked, record_task_with_dependencies,
    record_webhook_delivery_exhausted, record_webhook_delivery_retry,
    record_webhook_delivery_success, record_webhook_mark_failure, Metrics,
};
use crate::models::{rows, StatusKind, Task, TaskRow};
use crate::workers::delivery_loop::{MarkAction, MarkView};
use std::collections::HashMap;
use vstd::prelude::*;

verus! {

/// A task whose status a transaction changed.
#[derive(Clone, Copy, Debug, PartialEq, Eq, Structural)]
pub struct StatusChange {
    /// The task.
    pub id: u128,
    /// Its status before.
    pub from: StatusKind,
    /// Its status after.
    pub to: StatusKind,
}

/// How the status of a row changed, given the statuses before. A task that waits for
/// nothing any more but was canceled all the same became unblocked in between.
pub open spec fn moves(before: Map<u128, StatusKind>, r: TaskRow) -> Seq<StatusChange> {
    let from = before[r.id];
    if !before.contains_key(r.id) || from == r.status {
        Seq::empty()
    } else if from == StatusKind::Waiting && r.status == StatusKind::Canceled && r.wait_finished
        == 0 && r.wait_success == 0 {
        seq![
            StatusChange { id: r.id, from, to: StatusKind::Pending },
            StatusChange { id: r.id, from: StatusKind::Pending, to: r.status },
        ]
    } else {
        seq![StatusChange { id: r.id, from, to: r.status }]
    }
}

/// How the statuses of rows changed, in their order.
pub open spec fn all_moves(before: Map<u128, StatusKind>, rows: Seq<TaskRow>) -> Seq<StatusChange>
    decreases rows.len(),
{
    if rows.len() == 0 {
        Seq::empty()
    } else {
        all_moves(before, rows.drop_last()) + moves(before, rows.last())
    }
}

/// How the statuses of tasks changed in a transaction, given those at its start.
pub fn status_changes(before: &HashMap<u128, StatusKind>, tasks: &Vec<Task>) -> (r: Vec<
    StatusChange,
>)
    ensures
        r@ == all_moves(before@, rows(tasks@)),
{
    broadcast use vstd::std_specs::hash::group_hash_axioms;

    let ghost rs = rows(tasks@);
    let mut r: Vec<StatusChange> = Vec::new();
    let mut i: usize = 0;
    assert(rs.take(0) =~= Seq::empty());
    while i < tasks.len()
        invariant
            i <= tasks@.len(),
            rs == rows(tasks@),
            r@ == all_moves(before@, rs.take(i as int)),
        decreases tasks.len() - i,
    {
        broadcast use vstd::std_specs::hash::group_hash_axioms;

        let t: &Task = &tasks[i];
        let id: u128 = t.id;
        let to: StatusKind = t.status;
        let ghost done = r@;
        proof {
            assert(rs[i as int] == t@);
            assert(rs.take(i + 1).drop_last() =~= rs.take(i as int));
            assert(rs.take(i + 1).last() == t@);
        }
        if let Some(known) = before.get(&id) {
            let from: StatusKind = *known;
            if from == StatusKind::Waiting && to == StatusKind::Canceled && t.wait_finished == 0
                && t.wait_success == 0 {
                r.push(StatusChange { id, from, to: StatusKind::Pending });
                r.push(StatusChange { id, from: StatusKind::Pending, to });
            } else if from != to {
                r.push(StatusChange { id, from, to });
            }
        }
        assert(r@ =~= done + moves(before@, t@));
        i += 1;
    }
    assert(rs.take(i as int) =~= rs);
    r
}

/// What a transaction is about.
#[derive(Clone, Copy, Debug, PartialEq, Eq, Structural)]
pub enum Cause {
    /// Pending tasks are claimed.
    Claim,
    /// A claimed task starts.
    Start {
        /// The task.
        id: u128,
    },
    /// Stale claims go back to the queue.
    Requeue,
    /// The end of a task is reported.
    Update {
        /// The task.
        id: u128,
    },
    /// A task is past its timeout.
    Timeout {
        /// The task.
        id: u128,
    },
    /// A task is canceled.
    Cancel {
        /// The task.
        id: u128,
    },
    /// Nothing that is counted by status.
    Other,
}

/// The metrics that status changes count into.
#[verifier::ext_equal]
pub struct Tally {
    pub transitions: Map<u64, u64>,
    pub propagations: Map<u64, u64>,
    pub unblocked: u64,
    pub failed: u64,
    pub dead_ends: u64,
    pub canceled: u64,
    pub timed_out: u64,
}

/// The state of those metrics.
pub open spec fn tally_of(m: Metrics) -> Tally {
    Tally {
        transitions: counter_series(m.task_status_transitions),
        propagations: counter_series(m.dependency_propagations),
        unblocked: counter_value(m.tasks_unblocked),
        failed: counter_value(m.tasks_failed_by_dependency),
        dead_ends: counter_value(m.tasks_canceled_dead_end_total),
        canceled: counter_value(m.tasks_cancelled_total),
        timed_out: counter_value(m.tasks_timed_out_total),
    }
}

/// One more transition.
pub open spec fn transition(t: Tally, from: Seq<char>, to: Seq<char>) -> Tally {
    Tally { transitions: bumped(t.transitions, seq![from, to]), ..t }
}

/// One more end that was passed on to the children of a task.
pub open spec fn passed_on(t: Tally, outcome: Seq<char>) -> Tally {
    Tally { propagations: bumped(t.propagations, seq![outcome]), ..t }
}

/// What the end of the task that a transaction is about counts, by its cause. It is
/// passed on in any case; a failed start counts nothing else.
pub open spec fn target_noted(t: Tally, cause: Cause, to: StatusKind) -> Tally {
    let passed = passed_on(
        t,
        if to == StatusKind::Success {
            "success"@
        } else {
            "failure"@
        },
    );
    match cause {
        Cause::Update { .. } => transition(
            passed,
            "Running"@,
            match to {
                StatusKind::Success => "success"@,
                StatusKind::Failure => "failure"@,
                _ => "other"@,
            },
        ),
        Cause::Timeout { .. } => Tally {
            timed_out: t.timed_out.wrapping_add(1),
            ..transition(passed, "Running"@, "Failure"@)
        },
        Cause::Cancel { .. } => Tally { canceled: t.canceled.wrapping_add(1), ..passed },
        _ => passed,
    }
}

/// What the change of another task counts: it became unblocked, it failed with a task
/// that it required, or it was canceled as a dead end.
pub open spec fn other_noted(t: Tally, c: StatusChange) -> Tally {
    match c.to {
        StatusKind::Pending => Tally {
            unblocked: t.unblocked.wrapping_add(1),
            ..transition(t, "Waiting"@, "Pending"@)
        },
        StatusKind::Failure => Tally {
            failed: t.failed.wrapping_add(1),
            ..passed_on(t, "failure"@)
        },
        StatusKind::Canceled => Tally {
            dead_ends: t.dead_ends.wrapping_add(1),
            ..transition(t, c.from.stored_name(), "Canceled"@)
        },
        _ => t,
    }
}

/// The task whose change a transaction is about.
pub open spec fn target(cause: Cause) -> Option<u128> {
    match cause {
        Cause::Start { id } => Some(id),
        Cause::Update { id } => Some(id),
        Cause::Timeout { id } => Some(id),
        Cause::Cancel { id } => Some(id),
        _ => None,
    }
}

/// What one change counts.
pub open spec fn noted(t: Tally, cause: Cause, c: StatusChange) -> Tally {
    match cause {
        Cause::Claim => transition(t, "Pending"@, "Claimed"@),
        Cause::Requeue => transition(t, "Claimed"@, "Pending"@),
        Cause::Other => t,
        _ => if target(cause) != Some(c.id) {
            other_noted(t, c)
        } else if c.to == StatusKind::Running {
            transition(t, "Claimed"@, "Running"@)
        } else if c.to.terminal() {
            target_noted(t, cause, c.to)
        } else {
            t
        },
    }
}

/// What changes count, one after another.
pub open spec fn all_noted(t: Tally, cause: Cause, changes: Seq<StatusChange>) -> Tally
    decreases changes.len(),
{
    if changes.len() == 0 {
        t
    } else {
        noted(all_noted(t, cause, changes.drop_last()), cause, changes.last())
    }
}

/// The metrics outside the tally are the same.
pub open spec fn same_rest(a: Metrics, b: Metrics) -> bool {
    b == (Metrics {
        task_status_transitions: b.task_status_transitions,
        dependency_propagations: b.dependency_propagations,
        tasks_unblocked: b.tasks_unblocked,
        tasks_failed_by_dependency: b.tasks_failed_by_dependency,
        tasks_canceled_dead_end_total: b.tasks_canceled_dead_end_total,
        tasks_cancelled_total: b.tasks_cancelled_total,
        tasks_timed_out_total: b.tasks_timed_out_total,
        ..a
    })
}

/// Counts the end of the task that a transaction is about.
fn note_target(m: &mut Metrics, cause: Cause, to: StatusKind)
    requires
        old(m).wf(),
    ensures
        final(m).wf(),
        same_rest(*old(m), *final(m)),
        tally_of(*final(m)) == target_noted(tally_of(*old(m)), cause, to),
{
    let outcome: &str = if to == StatusKind::Success {
        "success"
    } else {
        "failure"
    };
    record_dependency_propagation(m, outcome);
    match cause {
        Cause::Update { .. } => {
            let label: &str = match to {
                StatusKind::Success => "success",
                StatusKind::Failure => "failure",
                _ => "other",
            };
            record_status_transition(m, "Running", label);
        },
        Cause::Timeout { .. } => {
            record_status_transition(m, "Running", "Failure");
            record_task_timeout(m);
        },
        Cause::Cancel { .. } => {
            record_task_cancelled(m);
        },
        _ => {},
    }
}

/// Counts the change of another task.
fn note_other(m: &mut Metrics, c: StatusChange)
    requires
        old(m).wf(),
    ensures
        final(m).wf(),
        same_rest(*old(m), *final(m)),
        tally_of(*final(m)) == other_noted(tally_of(*old(m)), c),
{
    match c.to {
        StatusKind::Pending => {
            record_status_transition(m, "Waiting", "Pending");
            record_task_unblocked(m);
        },
        StatusKind::Failure => {
            record_dependency_propagation(m, "failure");
            record_task_failed_by_dependency(m);
        },
        StatusKind::Canceled => {
            record_status_transition(m, c.from.stored(), "Canceled");
            record_task_canceled_dead_end(m);
        },
        _ => {},
    }
}

/// Counts one change.
fn note(m: &mut Metrics, cause: Cause, c: StatusChange)
    requires
        old(m).wf(),
    ensures
        final(m).wf(),
        same_rest(*old(m), *final(m)),
        tally_of(*final(m)) == noted(tally_of(*old(m)), cause, c),
{
    let about: Option<u128> = match cause {
        Cause::Claim => {
            record_status_transition(m, "Pending", "Claimed");
            return ;
        },
        Cause::Requeue => {
            record_status_transition(m, "Claimed", "Pending");
            return ;
        },
        Cause::Other => {
            return ;
        },
        Cause::Start { id } => Some(id),
        Cause::Update { id } => Some(id),
        Cause::Timeout { id } => Some(id),
        Cause::Cancel { id } => Some(id),
    };
    if about != Some(c.id) {
        note_other(m, c);
    } else if c.to == StatusKind::Running {
        record_status_transition(m, "Claimed", "Running");
    } else if c.to.is_terminal() {
        note_target(m, cause, c.to);
    }
}

/// Counts the status changes of a transaction, and the batches that it completed.
pub fn record_changes(
    m: &mut Metrics,
    cause: Cause,
    changes: &Vec<StatusChange>,
    batches_completed: usize,
)
    requires
        old(m).wf(),
    ensures
        final(m).wf(),
        tally_of(*final(m)) == all_noted(tally_of(*old(m)), cause, changes@),
        counter_value(final(m).batches_completed_total) == counted_up(
            counter_value(old(m).batches_completed_total),
            batches_completed as nat,
        ),
        same_rest(
            (Metrics { batches_completed_total: final(m).batches_completed_total, ..*old(m) }),
            *final(m),
        ),
{
    let ghost start = *m;
    let mut i: usize = 0;
    while i < changes.len()
        invariant
            i <= changes@.len(),
            m.wf(),
            same_rest(start, *m),
            tally_of(*m) == all_noted(tally_of(start), cause, changes@.take(i as int)),
        decreases changes.len() - i,
    {
        note(m, cause, changes[i]);
        assert(changes@.take(i + 1).drop_last() =~= changes@.take(i as int));
        i += 1;
    }
    assert(changes@.take(i as int) =~= changes@);
    let ghost middle = *m;
    let mut k: usize = 0;
    while k < batches_completed
        invariant
            k <= batches_completed,
            m.wf(),
            *m == (Metrics { batches_completed_total: m.batches_completed_total, ..middle }),
            counter_value(m.batches_completed_total) == counted_up(
                counter_value(middle.batches_completed_total),
                k as nat,
            ),
        decreases batches_completed - k,
    {
        record_batch_completed(m);
        k += 1;
    }
}

/// The metrics once a mark was posted: one that took effect counts as a delivery of its
/// kind, one whose claim had lost its row counts nothing, and one that could not be
/// recorded (`None`) counts as such.
pub open spec fn mark_noted(a: Metrics, mark: MarkView, taken: Option<bool>, b: Metrics) -> bool {
    match taken {
        Some(true) => match mark {
            MarkView::Success { label, .. } => {
                &&& counter_series(b.webhook_delivery_success) == bumped(
                    counter_series(a.webhook_delivery_success),
                    seq![label],
                )
                &&& b == Metrics { webhook_delivery_success: b.webhook_delivery_success, ..a }
            },
            MarkView::Retry { label, .. } => {
                &&& counter_series(b.webhook_delivery_retries) == bumped(
                    counter_series(a.webhook_delivery_retries),
                    seq![label],
                )
                &&& b == Metrics { webhook_delivery_retries: b.webhook_delivery_retries, ..a }
            },
            MarkView::Exhausted { label, .. } => {
                &&& counter_series(b.webhook_delivery_exhausted) == bumped(
                    counter_series(a.webhook_delivery_exhausted),
                    seq![label],
                )
                &&& b == Metrics { webhook_delivery_exhausted: b.webhook_delivery_exhausted, ..a }
            },
        },
        Some(false) => b == a,
        None => {
            &&& counter_series(b.webhook_mark_failures) == bumped(
                counter_series(a.webhook_mark_failures),
                seq![
                    match mark {
                        MarkView::Success { .. } => "success"@,
                        MarkView::Retry { .. } => "retry"@,
                        MarkView::Exhausted { .. } => "exhausted"@,
                    },
                ],
            )
            &&& b == Metrics { webhook_mark_failures: b.webhook_mark_failures, ..a }
        },
    }
}

/// Counts a mark that was posted. `taken` says whether it took effect, and is `None`
/// where it could not be recorded.
pub fn record_mark(m: &mut Metrics, mark: &MarkAction, taken: Option<bool>)
    requires
        old(m).wf(),
    ensures
        final(m).wf(),
        mark_noted(*old(m), mark@, taken, *final(m)),
{
    match taken {
        Some(true) => match mark {
            MarkAction::Success { label, .. } => record_webhook_delivery_success(m, label),
            MarkAction::Retry { label, .. } => record_webhook_delivery_retry(m, label),
            MarkAction::Exhausted { label, .. } => record_webhook_delivery_exhausted(m, label),
        },
        Some(false) => {},
        None => {
            let name: &str = match mark {
                MarkAction::Success { .. } => "success",
                MarkAction::Retry { .. } => "retry",
                MarkAction::Exhausted { .. } => "exhausted",
            };
            record_webhook_mark_failure(m, name);
        },
    }
}

/// Counts the tasks of a request: those that were created, how many of these wait for
/// others, and those that were skipped because they exist already.
pub fn record_insertion(m: &mut Metrics, created: usize, dependent: usize, skipped: usize)
    ensures
        old(m).wf() ==> final(m).wf(),
        counter_value(final(m).tasks_created_total) == counted_up(
            counter_value(old(m).tasks_created_total),
            created as nat,
        ),
        counter_value(final(m).tasks_with_dependencies) == counted_up(
            counter_value(old(m).tasks_with_dependencies),
            dependent as nat,
        ),
        counter_value(final(m).tasks_deduped_total) == counted_up(
            counter_value(old(m).tasks_deduped_total),
            skipped as nat,
        ),
        *final(m) == (Metrics {
            tasks_created_total: final(m).tasks_created_total,
            tasks_with_dependencies: final(m).tasks_with_dependencies,
            tasks_deduped_total: final(m).tasks_deduped_total,
            ..*old(m)
        }),
{
    let ghost start = *m;
    let mut i: usize = 0;
    while i < created
        invariant
            i <= created,
            start.wf() ==> m.wf(),
            *m == (Metrics { tasks_created_total: m.tasks_created_total, ..start }),
            counter_value(m.tasks_created_total) == counted_up(
                counter_value(start.tasks_created_total),
                i as nat,
            ),
        decreases created - i,
    {
        record_task_created(m);
        i += 1;
    }
    let ghost middle = *m;
    let mut i: usize = 0;
    while i < dependent
        invariant
            i <= dependent,
            start.wf() ==> m.wf(),
            *m == (Metrics { tasks_with_dependencies: m.tasks_with_dependencies, ..middle }),
            counter_value(m.tasks_with_dependencies) == counted_up(
                counter_value(middle.tasks_with_dependencies),
                i as nat,
            ),
        decreases dependent - i,
    {
        record_task_with_dependencies(m);
        i += 1;
    }
    let ghost last = *m;
    let mut i: usize = 0;
    while i < skipped
        invariant
            i <= skipped,
            start.wf() ==> m.wf(),
            *m == (Metrics { tasks_deduped_total: m.tasks_deduped_total, ..last }),
            counter_value(m.tasks_deduped_total) == counted_up(
                counter_value(last.tasks_deduped_total),
                i as nat,
            ),
        decreases skipped - i,
    {
        record_task_deduped(m);
        i += 1;
    }
}

/// A counter after `n` more were counted.
pub open spec fn counted_up(value: u64, n: nat) -> u64
    decreases n,
{
    if n == 0 {
        value
    } else {
        counted_up(value, (n - 1) as nat).wrapping_add(1)
    }
}

} // verus!
