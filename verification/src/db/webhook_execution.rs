//! The ledger of webhook events, and the detection of completed batches.

use crate::action::{batch_complete_idempotency_key, batch_key};
use crate::db::webhook_outbox::{
    batch_row, enqueue_batch_complete_outbox, enqueued, recorded,
};
use crate::models::{
    ledger_rows, opt_int_i64, outbox_rows, rows, Batch, LedgerRow, NewActionDto, OnComplete,
    OutboxRow, StatusKind, Task, TaskRow, TriggerCondition, TriggerKind, WebhookExecution,
    WebhookExecutionStatus, WebhookOutbox,
};
use crate::tally::{count, has_id, lemma_count_take};
use vstd::prelude::*;

verus! {

// ---------------------------------------------------------------------------
// The idempotency ledger
// ---------------------------------------------------------------------------

/// No two ledger rows share a key.
pub open spec fn unique_ledger_keys(ledger: Seq<LedgerRow>) -> bool {
    forall|i: int, j: int|
        #![trigger ledger[i], ledger[j]]
        0 <= i < ledger.len() && 0 <= j < ledger.len() && ledger[i].key == ledger[j].key ==> i == j
}

/// A claim that was just made.
pub open spec fn claim_row(
    task: u128,
    trigger: TriggerKind,
    condition: TriggerCondition,
    key: Seq<char>,
    now: int,
) -> LedgerRow {
    LedgerRow {
        id: None,
        task_id: Some(task),
        trigger,
        condition,
        key,
        status: WebhookExecutionStatus::Pending,
        attempts: 1,
        created_at: now,
        updated_at: now,
        next_attempt_at: now,
        last_error: None,
        batch_id: None,
    }
}

/// Whether an event that was claimed before may be claimed again: it failed, or
/// it has been pending for longer than `stale_after` microseconds.
pub open spec fn reclaimable(r: LedgerRow, stale_after: Option<int>, now: int) -> bool {
    r.status == WebhookExecutionStatus::Failure || (r.status == WebhookExecutionStatus::Pending
        && stale_after is Some && r.updated_at < now - stale_after->0)
}

/// A row claimed again.
pub open spec fn reclaimed_row(r: LedgerRow, now: int) -> LedgerRow {
    LedgerRow {
        attempts: r.attempts + 1,
        status: WebhookExecutionStatus::Pending,
        updated_at: now,
        ..r
    }
}

/// A staleness bound, capped at the largest 64-bit number.
pub open spec fn capped(stale_after: Option<u128>) -> Option<int> {
    match stale_after {
        Some(m) => Some(
            if m <= i64::MAX {
                m as int
            } else {
                i64::MAX as int
            },
        ),
        None => None,
    }
}

/// A claim of a webhook execution turns the ledger `before` into `after` and
/// answers `proceed`.
pub open spec fn execution_claim(
    before: Seq<LedgerRow>,
    after: Seq<LedgerRow>,
    task_id: u128,
    trigger: TriggerKind,
    condition: TriggerCondition,
    key: Seq<char>,
    stale_after: Option<int>,
    now: int,
    proceed: bool,
) -> bool {
    if !recorded(before, key) {
        proceed && after == before.push(claim_row(task_id, trigger, condition, key, now))
    } else {
        exists|i: int|
            0 <= i < before.len() && (#[trigger] before[i]).key == key && proceed == reclaimable(
                before[i],
                stale_after,
                now,
            ) && after == if proceed {
                before.update(i, reclaimed_row(before[i], now))
            } else {
                before
            }
    }
}

/// Attempts to claim a webhook execution for idempotency.
///
/// - No row with the key: a pending one is inserted; proceed.
/// - A failed row: it is reset to pending; proceed.
/// - A pending row: the same, but only where `stale_after` microseconds (if
///   given) have elapsed since its last update.
/// - A row that succeeded or was exhausted: skip.
///
/// Returns whether to proceed.
pub fn try_claim_webhook_execution(
    ledger: &mut Vec<WebhookExecution>,
    task_id: u128,
    trigger_kind: TriggerKind,
    trigger_condition: TriggerCondition,
    key: &String,
    stale_after: Option<u128>,
    now: i64,
) -> (r: bool)
    requires
        unique_ledger_keys(ledger_rows(old(ledger)@)),
        forall|i: int|
            0 <= i < old(ledger)@.len() ==> (#[trigger] old(ledger)@[i]).attempts < i32::MAX,
    ensures
        execution_claim(
            ledger_rows(old(ledger)@),
            ledger_rows(final(ledger)@),
            task_id,
            trigger_kind,
            trigger_condition,
            key@,
            capped(stale_after),
            now as int,
            r,
        ),
{
    let ghost rs = ledger_rows(ledger@);
    let mut i: usize = 0;
    while i < ledger.len()
        invariant
            i <= ledger.len(),
            *ledger == *old(ledger),
            rs == ledger_rows(ledger@),
            forall|k: int|
                0 <= k < ledger@.len() ==> (#[trigger] ledger@[k]).attempts < i32::MAX,
            forall|k: int| 0 <= k < i ==> (#[trigger] rs[k]).key != key@,
        decreases ledger.len() - i,
    {
        assert(rs[i as int] == ledger@[i as int]@);
        if ledger[i].idempotency_key == *key {
            let stale: bool = match stale_after {
                Some(m) => {
                    let cap: i128 = if m <= i64::MAX as u128 {
                        m as i128
                    } else {
                        i64::MAX as i128
                    };
                    (ledger[i].updated_at as i128) < now as i128 - cap
                },
                None => false,
            };
            let again: bool = ledger[i].status == WebhookExecutionStatus::Failure || (
            ledger[i].status == WebhookExecutionStatus::Pending && stale);
            assert(again == reclaimable(rs[i as int], capped(stale_after), now as int));
            if again {
                ledger[i].attempts = ledger[i].attempts + 1;
                ledger[i].status = WebhookExecutionStatus::Pending;
                ledger[i].updated_at = now;
                assert(ledger_rows(ledger@) =~= rs.update(
                    i as int,
                    reclaimed_row(rs[i as int], now as int),
                ));
            }
            return again;
        }
        i += 1;
    }
    let row: WebhookExecution = WebhookExecution {
        id: None,
        task_id: Some(task_id),
        trigger: trigger_kind,
        condition: trigger_condition,
        idempotency_key: key.clone(),
        status: WebhookExecutionStatus::Pending,
        attempts: 1,
        created_at: now,
        updated_at: now,
        next_attempt_at: now,
        last_error: None,
        batch_id: None,
    };
    let ghost added = row@;
    ledger.push(row);
    assert(ledger_rows(ledger@) =~= rs.push(added));
    true
}

/// A row after its execution completed.
pub open spec fn completed_row(key: Seq<char>, succeeded: bool, now: int) -> spec_fn(
    LedgerRow,
) -> LedgerRow {
    |r: LedgerRow|
        if r.key == key {
            LedgerRow {
                status: if succeeded {
                    WebhookExecutionStatus::Success
                } else {
                    WebhookExecutionStatus::Failure
                },
                updated_at: now,
                ..r
            }
        } else {
            r
        }
}

/// Marks a webhook execution as a success or a failure.
pub fn complete_webhook_execution(
    ledger: &mut Vec<WebhookExecution>,
    key: &String,
    succeeded: bool,
    now: i64,
)
    ensures
        ledger_rows(final(ledger)@) == ledger_rows(old(ledger)@).map_values(
            completed_row(key@, succeeded, now as int),
        ),
{
    let ghost before = ledger@;
    let ghost step = completed_row(key@, succeeded, now as int);
    let mut i: usize = 0;
    while i < ledger.len()
        invariant
            i <= ledger.len(),
            ledger@.len() == before.len(),
            step == completed_row(key@, succeeded, now as int),
            forall|k: int| 0 <= k < i ==> (#[trigger] ledger@[k])@ == step(before[k]@),
            forall|k: int| i <= k < before.len() ==> (#[trigger] ledger@[k]) == before[k],
        decreases ledger.len() - i,
    {
        assert(ledger@[i as int] == before[i as int]);
        if ledger[i].idempotency_key == *key {
            ledger[i].status = if succeeded {
                WebhookExecutionStatus::Success
            } else {
                WebhookExecutionStatus::Failure
            };
            ledger[i].updated_at = now;
        }
        i += 1;
    }
    assert(ledger_rows(ledger@) =~= ledger_rows(before).map_values(step));
}

// ---------------------------------------------------------------------------
// Batch completion
// ---------------------------------------------------------------------------

/// The tasks of `batch` among `ids`.
pub open spec fn of_batch(ids: Seq<u128>, batch: u128) -> spec_fn(TaskRow) -> bool {
    |r: TaskRow| ids.contains(r.id) && r.batch_id == Some(batch)
}

/// How many of the tasks `ids` belong to `batch`.
pub open spec fn finished_in(tasks: Seq<TaskRow>, ids: Seq<u128>, batch: u128) -> nat {
    count(tasks, of_batch(ids, batch))
}

/// A number, or zero where it is negative.
pub open spec fn at_least_zero(x: int) -> int {
    if x < 0 {
        0
    } else {
        x
    }
}

/// A batch after the tasks `ids` became terminal.
pub open spec fn decremented(tasks: Seq<TaskRow>, ids: Seq<u128>) -> spec_fn(Batch) -> Batch {
    |b: Batch|
        if finished_in(tasks, ids, b.id) > 0 {
            Batch {
                remaining: at_least_zero(b.remaining - finished_in(tasks, ids, b.id)) as i32,
                ..b
            }
        } else {
            b
        }
}

/// Whether a batch is complete now that the tasks `ids` became terminal, and
/// wants to be told.
pub open spec fn completes(tasks: Seq<TaskRow>, ids: Seq<u128>) -> spec_fn(Batch) -> bool {
    |b: Batch|
        finished_in(tasks, ids, b.id) > 0 && decremented(tasks, ids)(b).remaining == 0
            && b.on_complete.registered()
}

/// The queue after the completion of the batches that satisfy `p` was
/// signalled.
pub open spec fn signalled(
    outbox: Seq<OutboxRow>,
    ledger: Seq<LedgerRow>,
    batches: Seq<Batch>,
    p: spec_fn(Batch) -> bool,
    now: int,
) -> Seq<OutboxRow>
    decreases batches.len(),
{
    if batches.len() == 0 {
        outbox
    } else {
        let before = signalled(outbox, ledger, batches.drop_last(), p, now);
        if p(batches.last()) {
            enqueued(
                before,
                ledger,
                batch_row(batches.last().id, batch_key(batches.last().id), now),
            )
        } else {
            before
        }
    }
}

/// How many of the tasks `ids` belong to `batch`.
fn count_finished(tasks: &Vec<Task>, ids: &Vec<u128>, batch: u128) -> (r: usize)
    ensures
        r == finished_in(rows(tasks@), ids@, batch),
{
    let ghost rs = rows(tasks@);
    let ghost p = of_batch(ids@, batch);
    let mut n: usize = 0;
    let mut i: usize = 0;
    while i < tasks.len()
        invariant
            i <= tasks.len(),
            rs == rows(tasks@),
            p == of_batch(ids@, batch),
            n == count(rs.take(i as int), p),
            n <= i,
        decreases tasks.len() - i,
    {
        proof {
            lemma_count_take(rs, p, i as int);
            assert(rs[i as int] == tasks@[i as int]@);
        }
        let mine: bool = match tasks[i].batch_id {
            Some(b) => b == batch,
            None => false,
        };
        if mine && has_id(ids, tasks[i].id) {
            n += 1;
        }
        i += 1;
    }
    assert(rs.take(i as int) =~= rs);
    n
}

/// Decrements `remaining` of every batch by the number of its tasks among
/// `terminal_task_ids`, and enqueues one `batch_complete` row for each batch
/// that reaches zero with a webhook registered.
///
/// The ids are those of the tasks that became terminal in this transaction; a
/// repeated id counts once. Tasks without a batch row change nothing.
///
/// Returns the number of rows enqueued.
pub fn decrement_batch_remaining_for_tasks(
    batches: &mut Vec<Batch>,
    outbox: &mut Vec<WebhookOutbox>,
    ledger: &Vec<WebhookExecution>,
    tasks: &Vec<Task>,
    terminal_task_ids: &Vec<u128>,
    now: i64,
) -> (r: usize)
    ensures
        final(batches)@ == old(batches)@.map_values(
            decremented(rows(tasks@), terminal_task_ids@),
        ),
        outbox_rows(final(outbox)@) == signalled(
            outbox_rows(old(outbox)@),
            ledger_rows(ledger@),
            old(batches)@,
            completes(rows(tasks@), terminal_task_ids@),
            now as int,
        ),
        r == final(outbox)@.len() - old(outbox)@.len(),
{
    let ghost rs = rows(tasks@);
    let ghost before = batches@;
    let ghost queue = outbox_rows(outbox@);
    let ghost step = decremented(rs, terminal_task_ids@);
    let ghost p = completes(rs, terminal_task_ids@);
    let ghost len0 = outbox@.len();
    let mut n: usize = 0;
    let mut i: usize = 0;
    while i < batches.len()
        invariant
            i <= batches.len(),
            batches@.len() == before.len(),
            rs == rows(tasks@),
            step == decremented(rs, terminal_task_ids@),
            p == completes(rs, terminal_task_ids@),
            forall|k: int| 0 <= k < i ==> #[trigger] batches@[k] == step(before[k]),
            forall|k: int| i <= k < before.len() ==> #[trigger] batches@[k] == before[k],
            outbox_rows(outbox@) == signalled(
                queue,
                ledger_rows(ledger@),
                before.take(i as int),
                p,
                now as int,
            ),
            n == outbox@.len() - len0,
            n <= i,
        decreases batches.len() - i,
    {
        proof {
            assert(before.take(i + 1).drop_last() =~= before.take(i as int));
            assert(batches@[i as int] == before[i as int]);
        }
        let id: u128 = batches[i].id;
        let finished: usize = count_finished(tasks, terminal_task_ids, id);
        if finished > 0 {
            let left: i128 = batches[i].remaining as i128 - finished as i128;
            batches[i].remaining = if left < 0 {
                0
            } else {
                left as i32
            };
            assert(batches@[i as int] == step(before[i as int]));
            if batches[i].remaining == 0 && batches[i].on_complete.is_registered() {
                let key: String = batch_complete_idempotency_key(id);
                let ghost held = outbox@;
                let added: bool = enqueue_batch_complete_outbox(outbox, ledger, id, key, now);
                proof {
                    assert(outbox_rows(outbox@).len() == outbox@.len());
                    assert(outbox_rows(held).len() == held.len());
                }
                if added {
                    n += 1;
                }
            }
        }
        i += 1;
    }
    proof {
        assert(before.take(i as int) =~= before);
        assert(batches@ =~= before.map_values(step));
    }
    n
}

/// [`decrement_batch_remaining_for_tasks`] for exactly one task.
pub fn decrement_batch_remaining_for_task(
    batches: &mut Vec<Batch>,
    outbox: &mut Vec<WebhookOutbox>,
    ledger: &Vec<WebhookExecution>,
    tasks: &Vec<Task>,
    task_id: u128,
    now: i64,
) -> (r: usize)
    ensures
        final(batches)@ == old(batches)@.map_values(decremented(rows(tasks@), seq![task_id])),
        outbox_rows(final(outbox)@) == signalled(
            outbox_rows(old(outbox)@),
            ledger_rows(ledger@),
            old(batches)@,
            completes(rows(tasks@), seq![task_id]),
            now as int,
        ),
        r == final(outbox)@.len() - old(outbox)@.len(),
{
    let mut ids: Vec<u128> = Vec::new();
    ids.push(task_id);
    assert(ids@ =~= seq![task_id]);
    decrement_batch_remaining_for_tasks(batches, outbox, ledger, tasks, &ids, now)
}

/// The batch `id` with `remaining` set.
pub open spec fn with_remaining(id: u128, remaining: i32) -> spec_fn(Batch) -> Batch {
    |b: Batch|
        if b.id == id {
            Batch { remaining, ..b }
        } else {
            b
        }
}

/// The batch `id`, where it has a webhook registered.
pub open spec fn registered_batch(id: u128) -> spec_fn(Batch) -> bool {
    |b: Batch| b.id == id && b.on_complete.registered()
}

/// Sets `remaining` of the batch `id`, and signals its completion where `fire`
/// holds and a webhook is registered. Returns the number of rows enqueued.
fn set_remaining(
    batches: &mut Vec<Batch>,
    outbox: &mut Vec<WebhookOutbox>,
    ledger: &Vec<WebhookExecution>,
    batch_id: u128,
    remaining: i32,
    fire: bool,
    now: i64,
) -> (r: usize)
    ensures
        final(batches)@ == old(batches)@.map_values(with_remaining(batch_id, remaining)),
        outbox_rows(final(outbox)@) == if fire {
            signalled(
                outbox_rows(old(outbox)@),
                ledger_rows(ledger@),
                old(batches)@,
                registered_batch(batch_id),
                now as int,
            )
        } else {
            outbox_rows(old(outbox)@)
        },
        r == final(outbox)@.len() - old(outbox)@.len(),
{
    let ghost before = batches@;
    let ghost queue = outbox_rows(outbox@);
    let ghost step = with_remaining(batch_id, remaining);
    let ghost p = registered_batch(batch_id);
    let ghost len0 = outbox@.len();
    let mut n: usize = 0;
    let mut i: usize = 0;
    while i < batches.len()
        invariant
            i <= batches.len(),
            batches@.len() == before.len(),
            step == with_remaining(batch_id, remaining),
            p == registered_batch(batch_id),
            forall|k: int| 0 <= k < i ==> #[trigger] batches@[k] == step(before[k]),
            forall|k: int| i <= k < before.len() ==> #[trigger] batches@[k] == before[k],
            outbox_rows(outbox@) == if fire {
                signalled(queue, ledger_rows(ledger@), before.take(i as int), p, now as int)
            } else {
                queue
            },
            n == outbox@.len() - len0,
            n <= i,
        decreases batches.len() - i,
    {
        proof {
            assert(before.take(i + 1).drop_last() =~= before.take(i as int));
            assert(batches@[i as int] == before[i as int]);
        }
        if batches[i].id == batch_id {
            batches[i].remaining = remaining;
            assert(batches@[i as int] == step(before[i as int]));
            if fire && batches[i].on_complete.is_registered() {
                let key: String = batch_complete_idempotency_key(batch_id);
                let ghost held = outbox@;
                let added: bool = enqueue_batch_complete_outbox(outbox, ledger, batch_id, key, now);
                proof {
                    assert(outbox_rows(outbox@).len() == outbox@.len());
                    assert(outbox_rows(held).len() == held.len());
                }
                if added {
                    n += 1;
                }
            }
        }
        i += 1;
    }
    proof {
        assert(before.take(i as int) =~= before);
        assert(batches@ =~= before.map_values(step));
    }
    n
}

/// Forces `remaining` of a batch to zero, for a sweep that canceled all its
/// tasks, and signals its completion where a webhook is registered. Returns the
/// number of rows enqueued.
pub fn zero_batch_remaining_and_complete(
    batches: &mut Vec<Batch>,
    outbox: &mut Vec<WebhookOutbox>,
    ledger: &Vec<WebhookExecution>,
    batch_id: u128,
    now: i64,
) -> (r: usize)
    ensures
        final(batches)@ == old(batches)@.map_values(with_remaining(batch_id, 0)),
        outbox_rows(final(outbox)@) == signalled(
            outbox_rows(old(outbox)@),
            ledger_rows(ledger@),
            old(batches)@,
            registered_batch(batch_id),
            now as int,
        ),
        r == final(outbox)@.len() - old(outbox)@.len(),
{
    set_remaining(batches, outbox, ledger, batch_id, 0, true, now)
}

/// Initializes `remaining` of a fresh batch to the number of tasks actually
/// inserted. A batch with none is vacuously complete: its completion is
/// signalled at once where a webhook is registered. Returns the number of rows
/// enqueued.
pub fn init_batch_remaining(
    batches: &mut Vec<Batch>,
    outbox: &mut Vec<WebhookOutbox>,
    ledger: &Vec<WebhookExecution>,
    batch_id: u128,
    count: i32,
    now: i64,
) -> (r: usize)
    ensures
        final(batches)@ == old(batches)@.map_values(with_remaining(batch_id, count)),
        outbox_rows(final(outbox)@) == if count == 0 {
            signalled(
                outbox_rows(old(outbox)@),
                ledger_rows(ledger@),
                old(batches)@,
                registered_batch(batch_id),
                now as int,
            )
        } else {
            outbox_rows(old(outbox)@)
        },
        r == final(outbox)@.len() - old(outbox)@.len(),
{
    set_remaining(batches, outbox, ledger, batch_id, count, count == 0, now)
}

/// Inserts the batch row. Its `remaining` starts at zero and is set once the
/// tasks are inserted.
pub fn insert_batch(
    batches: &mut Vec<Batch>,
    batch_id: u128,
    on_complete: Vec<NewActionDto>,
    scope: Option<String>,
    metadata: String,
    now: i64,
)
    ensures
        final(batches)@ == old(batches)@.push(
            (Batch {
                id: batch_id,
                on_complete: OnComplete::Actions(on_complete),
                created_at: now,
                scope,
                metadata,
                remaining: 0,
            }),
        ),
{
    batches.push(
        Batch {
            id: batch_id,
            on_complete: OnComplete::Actions(on_complete),
            created_at: now,
            scope,
            metadata,
            remaining: 0,
        },
    );
}

/// The `on_complete` payload of a batch, where the batch row exists.
pub fn load_batch_on_complete(batches: &Vec<Batch>, batch_id: u128) -> (r: Option<&OnComplete>)
    ensures
        match r {
            Some(p) => exists|i: int|
                0 <= i < batches@.len() && (#[trigger] batches@[i]).id == batch_id
                    && batches@[i].on_complete == *p && forall|k: int|
                    0 <= k < i ==> (#[trigger] batches@[k]).id != batch_id,
            None => forall|i: int|
                0 <= i < batches@.len() ==> (#[trigger] batches@[i]).id != batch_id,
        },
{
    let mut i: usize = 0;
    while i < batches.len()
        invariant
            i <= batches.len(),
            forall|k: int| 0 <= k < i ==> (#[trigger] batches@[k]).id != batch_id,
        decreases batches.len() - i,
    {
        if batches[i].id == batch_id {
            assert(batches@[i as int].id == batch_id);
            return Some(&batches[i].on_complete);
        }
        i += 1;
    }
    None
}

/// Per-status terminal counts of a batch, and its latest `ended_at`.
#[derive(Clone, Copy, Debug, PartialEq, Eq, Structural)]
pub struct BatchCompletionStats {
    /// Tasks that succeeded.
    pub success: i64,
    /// Tasks that failed.
    pub failure: i64,
    /// Tasks that were canceled.
    pub canceled: i64,
    /// When the last of its tasks ended.
    pub completed_at: Option<i64>,
}

/// The tasks of `batch` in `status`.
pub open spec fn in_batch_with(batch: u128, status: StatusKind) -> spec_fn(TaskRow) -> bool {
    |r: TaskRow| r.batch_id == Some(batch) && r.status == status
}

/// `latest` is the latest `ended_at` of the tasks of `batch`, if any ended.
pub open spec fn latest_end(tasks: Seq<TaskRow>, batch: u128, latest: Option<int>) -> bool {
    match latest {
        Some(t) => {
            &&& exists|i: int|
                0 <= i < tasks.len() && (#[trigger] tasks[i]).batch_id == Some(batch)
                    && tasks[i].ended_at == Some(t)
            &&& forall|i: int|
                0 <= i < tasks.len() && (#[trigger] tasks[i]).batch_id == Some(batch)
                    && tasks[i].ended_at is Some ==> tasks[i].ended_at->0 <= t
        },
        None => forall|i: int|
            0 <= i < tasks.len() && (#[trigger] tasks[i]).batch_id == Some(batch)
                ==> tasks[i].ended_at is None,
    }
}

/// Counts the terminal tasks of a batch per status, and finds its latest
/// `ended_at`.
pub fn batch_completion_stats(tasks: &Vec<Task>, batch_id: u128) -> (r: BatchCompletionStats)
    requires
        tasks@.len() <= i64::MAX,
    ensures
        r.success == count(rows(tasks@), in_batch_with(batch_id, StatusKind::Success)),
        r.failure == count(rows(tasks@), in_batch_with(batch_id, StatusKind::Failure)),
        r.canceled == count(rows(tasks@), in_batch_with(batch_id, StatusKind::Canceled)),
        latest_end(rows(tasks@), batch_id, opt_int_i64(r.completed_at)),
{
    let ghost rs = rows(tasks@);
    let mut success: i64 = 0;
    let mut failure: i64 = 0;
    let mut canceled: i64 = 0;
    let mut completed_at: Option<i64> = None;
    let mut i: usize = 0;
    assert(rs.take(0) =~= Seq::empty());
    while i < tasks.len()
        invariant
            i <= tasks.len(),
            tasks@.len() <= i64::MAX,
            rs == rows(tasks@),
            success == count(rs.take(i as int), in_batch_with(batch_id, StatusKind::Success)),
            failure == count(rs.take(i as int), in_batch_with(batch_id, StatusKind::Failure)),
            canceled == count(rs.take(i as int), in_batch_with(batch_id, StatusKind::Canceled)),
            success <= i,
            failure <= i,
            canceled <= i,
            latest_end(rs.take(i as int), batch_id, opt_int_i64(completed_at)),
        decreases tasks.len() - i,
    {
        let ghost t0 = rs.take(i as int);
        let ghost t1 = rs.take(i + 1);
        proof {
            lemma_count_take(rs, in_batch_with(batch_id, StatusKind::Success), i as int);
            lemma_count_take(rs, in_batch_with(batch_id, StatusKind::Failure), i as int);
            lemma_count_take(rs, in_batch_with(batch_id, StatusKind::Canceled), i as int);
            assert(rs[i as int] == tasks@[i as int]@);
            assert(t1[i as int] == rs[i as int]);
            assert forall|k: int| 0 <= k < i implies #[trigger] t1[k] == t0[k] by {}
        }
        let ghost was = completed_at;
        let mine: bool = match tasks[i].batch_id {
            Some(b) => b == batch_id,
            None => false,
        };
        if mine {
            if tasks[i].status == StatusKind::Success {
                success += 1;
            } else if tasks[i].status == StatusKind::Failure {
                failure += 1;
            } else if tasks[i].status == StatusKind::Canceled {
                canceled += 1;
            }
            if let Some(e) = tasks[i].ended_at {
                completed_at = match completed_at {
                    Some(c) if c >= e => Some(c),
                    _ => Some(e),
                };
            }
        }
        proof {
            if completed_at == was && was is Some {
                let w = choose|w: int|
                    0 <= w < t0.len() && (#[trigger] t0[w]).batch_id == Some(batch_id)
                        && t0[w].ended_at == Some(was->0 as int);
                assert(t1[w] == t0[w]);
            }
            assert(latest_end(t1, batch_id, opt_int_i64(completed_at)));
        }
        i += 1;
    }
    assert(rs.take(i as int) =~= rs);
    BatchCompletionStats { success, failure, canceled, completed_at }
}

} // verus!
