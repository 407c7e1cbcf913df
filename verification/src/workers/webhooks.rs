//! Enqueueing end and cancel notifications in the transaction that changed the
//! tasks.

use crate::action::{idem_key, idempotency_key};
use crate::db::webhook_outbox::{enqueue_outbox, enqueued, fresh_row};
use crate::models::{
    ledger_rows, outbox_rows, LedgerRow, OutboxRow, StatusKind, TriggerCondition, TriggerKind,
    WebhookExecution, WebhookOutbox,
};
use crate::workers::propagation::CanceledAncestor;
use vstd::prelude::*;

verus! {

/// The end condition of a final status: everything but `Success` is a failure.
pub open spec fn end_condition(status: StatusKind) -> TriggerCondition {
    if status == StatusKind::Success {
        TriggerCondition::Success
    } else {
        TriggerCondition::Failure
    }
}

/// Maps a task's final status to the condition of its end notification.
pub fn end_condition_for(status: StatusKind) -> (r: TriggerCondition)
    ensures
        r == end_condition(status),
{
    match status {
        StatusKind::Success => TriggerCondition::Success,
        _ => TriggerCondition::Failure,
    }
}

/// The end notification of a task.
pub open spec fn end_row(task: u128, status: StatusKind, now: int) -> OutboxRow {
    fresh_row(
        Some(task),
        None,
        TriggerKind::End,
        end_condition(status),
        idem_key(task, TriggerKind::End, end_condition(status)),
        now,
    )
}

/// The cancel notification of a task.
pub open spec fn cancel_row(task: u128, now: int) -> OutboxRow {
    fresh_row(
        Some(task),
        None,
        TriggerKind::Cancel,
        TriggerCondition::Success,
        idem_key(task, TriggerKind::Cancel, TriggerCondition::Success),
        now,
    )
}

/// The queue after the end notifications of `tasks`.
pub open spec fn with_ends(
    outbox: Seq<OutboxRow>,
    ledger: Seq<LedgerRow>,
    tasks: Seq<u128>,
    status: StatusKind,
    now: int,
) -> Seq<OutboxRow>
    decreases tasks.len(),
{
    if tasks.len() == 0 {
        outbox
    } else {
        enqueued(
            with_ends(outbox, ledger, tasks.drop_last(), status, now),
            ledger,
            end_row(tasks.last(), status, now),
        )
    }
}

/// The queue after the cancel notifications of `tasks`.
pub open spec fn with_cancels(
    outbox: Seq<OutboxRow>,
    ledger: Seq<LedgerRow>,
    tasks: Seq<u128>,
    now: int,
) -> Seq<OutboxRow>
    decreases tasks.len(),
{
    if tasks.len() == 0 {
        outbox
    } else {
        enqueued(
            with_cancels(outbox, ledger, tasks.drop_last(), now),
            ledger,
            cancel_row(tasks.last(), now),
        )
    }
}

/// The queue after the notifications of canceled ancestors: a cancel where the
/// ancestor was active, and a failed end in all cases.
pub open spec fn with_ancestors(
    outbox: Seq<OutboxRow>,
    ledger: Seq<LedgerRow>,
    ancestors: Seq<CanceledAncestor>,
    now: int,
) -> Seq<OutboxRow>
    decreases ancestors.len(),
{
    if ancestors.len() == 0 {
        outbox
    } else {
        let before = with_ancestors(outbox, ledger, ancestors.drop_last(), now);
        let a = ancestors.last();
        let canceled = if a.was_active {
            enqueued(before, ledger, cancel_row(a.id, now))
        } else {
            before
        };
        enqueued(canceled, ledger, end_row(a.id, StatusKind::Failure, now))
    }
}

/// Enqueues the end notification of a task that reached a terminal state.
pub fn enqueue_end_outbox(
    outbox: &mut Vec<WebhookOutbox>,
    ledger: &Vec<WebhookExecution>,
    task_id: u128,
    result_status: StatusKind,
    now: i64,
)
    ensures
        outbox_rows(final(outbox)@) == enqueued(
            outbox_rows(old(outbox)@),
            ledger_rows(ledger@),
            end_row(task_id, result_status, now as int),
        ),
{
    let cond: TriggerCondition = end_condition_for(result_status);
    let key: String = idempotency_key(task_id, &TriggerKind::End, &cond);
    enqueue_outbox(outbox, ledger, task_id, TriggerKind::End, cond, key, now);
}

/// Enqueues the cancel notification of a task that was canceled while active.
pub fn enqueue_cancel_outbox(
    outbox: &mut Vec<WebhookOutbox>,
    ledger: &Vec<WebhookExecution>,
    task_id: u128,
    now: i64,
)
    ensures
        outbox_rows(final(outbox)@) == enqueued(
            outbox_rows(old(outbox)@),
            ledger_rows(ledger@),
            cancel_row(task_id, now as int),
        ),
{
    let key: String = idempotency_key(task_id, &TriggerKind::Cancel, &TriggerCondition::Success);
    enqueue_outbox(
        outbox,
        ledger,
        task_id,
        TriggerKind::Cancel,
        TriggerCondition::Success,
        key,
        now,
    );
}

/// Enqueues the end notifications of several tasks with the same status.
pub fn enqueue_ends(
    outbox: &mut Vec<WebhookOutbox>,
    ledger: &Vec<WebhookExecution>,
    task_ids: &Vec<u128>,
    result_status: StatusKind,
    now: i64,
)
    ensures
        outbox_rows(final(outbox)@) == with_ends(
            outbox_rows(old(outbox)@),
            ledger_rows(ledger@),
            task_ids@,
            result_status,
            now as int,
        ),
{
    let ghost queue = outbox_rows(outbox@);
    let mut i: usize = 0;
    while i < task_ids.len()
        invariant
            i <= task_ids.len(),
            outbox_rows(outbox@) == with_ends(
                queue,
                ledger_rows(ledger@),
                task_ids@.take(i as int),
                result_status,
                now as int,
            ),
        decreases task_ids.len() - i,
    {
        assert(task_ids@.take(i + 1).drop_last() =~= task_ids@.take(i as int));
        enqueue_end_outbox(outbox, ledger, task_ids[i], result_status, now);
        i += 1;
    }
    assert(task_ids@.take(i as int) =~= task_ids@);
}

/// Enqueues the end notification of a task, and a failed end for every task that
/// its failure cascaded to.
pub fn enqueue_end_outbox_with_cascade(
    outbox: &mut Vec<WebhookOutbox>,
    ledger: &Vec<WebhookExecution>,
    task_id: u128,
    result_status: StatusKind,
    cascade_failed_ids: &Vec<u128>,
    now: i64,
)
    ensures
        outbox_rows(final(outbox)@) == with_ends(
            enqueued(
                outbox_rows(old(outbox)@),
                ledger_rows(ledger@),
                end_row(task_id, result_status, now as int),
            ),
            ledger_rows(ledger@),
            cascade_failed_ids@,
            StatusKind::Failure,
            now as int,
        ),
{
    enqueue_end_outbox(outbox, ledger, task_id, result_status, now);
    enqueue_ends(outbox, ledger, cascade_failed_ids, StatusKind::Failure, now);
}

/// Enqueues the notifications of ancestors canceled by dead-end detection: a
/// cancel where the ancestor was active, and a failed end in all cases.
pub fn enqueue_outbox_for_canceled_ancestors(
    outbox: &mut Vec<WebhookOutbox>,
    ledger: &Vec<WebhookExecution>,
    ancestors: &Vec<CanceledAncestor>,
    now: i64,
)
    ensures
        outbox_rows(final(outbox)@) == with_ancestors(
            outbox_rows(old(outbox)@),
            ledger_rows(ledger@),
            ancestors@,
            now as int,
        ),
{
    let ghost queue = outbox_rows(outbox@);
    let mut i: usize = 0;
    while i < ancestors.len()
        invariant
            i <= ancestors.len(),
            outbox_rows(outbox@) == with_ancestors(
                queue,
                ledger_rows(ledger@),
                ancestors@.take(i as int),
                now as int,
            ),
        decreases ancestors.len() - i,
    {
        assert(ancestors@.take(i + 1).drop_last() =~= ancestors@.take(i as int));
        let a: CanceledAncestor = ancestors[i];
        if a.was_active {
            enqueue_cancel_outbox(outbox, ledger, a.id, now);
        }
        enqueue_end_outbox(outbox, ledger, a.id, StatusKind::Failure, now);
        i += 1;
    }
    assert(ancestors@.take(i as int) =~= ancestors@);
}

/// Enqueues the cancel notifications of several tasks.
pub fn enqueue_cancels(
    outbox: &mut Vec<WebhookOutbox>,
    ledger: &Vec<WebhookExecution>,
    task_ids: &Vec<u128>,
    now: i64,
)
    ensures
        outbox_rows(final(outbox)@) == with_cancels(
            outbox_rows(old(outbox)@),
            ledger_rows(ledger@),
            task_ids@,
            now as int,
        ),
{
    let ghost queue = outbox_rows(outbox@);
    let mut i: usize = 0;
    while i < task_ids.len()
        invariant
            i <= task_ids.len(),
            outbox_rows(outbox@) == with_cancels(
                queue,
                ledger_rows(ledger@),
                task_ids@.take(i as int),
                now as int,
            ),
        decreases task_ids.len() - i,
    {
        assert(task_ids@.take(i + 1).drop_last() =~= task_ids@.take(i as int));
        enqueue_cancel_outbox(outbox, ledger, task_ids[i], now);
        i += 1;
    }
    assert(task_ids@.take(i as int) =~= task_ids@);
}

} // verus!
