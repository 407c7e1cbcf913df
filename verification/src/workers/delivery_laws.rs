//! Which webhooks are delivered, to whom, and what comes of it.

use crate::db::webhook_outbox::{
    age_key, claimable, deliverable, leased, lemma_positions, positions, unique_queue_keys,
    MAX_ERROR_CHARS,
};
use crate::models::{
    Action, Batch, LedgerRow, OnComplete, OutboxRow, StatusKind, TaskRow, TriggerCondition,
    TriggerKind, WebhookExecutionStatus,
};
use crate::order::{order, order_sorts, pick};
use crate::tally::{count, lemma_count_like, lemma_filter_count, lemma_filter_has};
use crate::workers::delivery_loop::{
    actions_for, all_marked, errors_of, joined, label_of, lag, marked_at, marked_ledger,
    marked_outbox, marks_held, marks_in, payload_of, plans_in, prepared_from, task_of, verdict,
    DeliveryConfig, KindView, MarkView, PlanView, PreparedView,
};
use vstd::arithmetic::power::pow;
use vstd::prelude::*;

verus! {

// ---------------------------------------------------------------------------
// Claiming rows
// ---------------------------------------------------------------------------

/// The start of the row's task is under way: it was begun, or tried, not long ago.
pub open spec fn start_under_way(
    ledger: Seq<LedgerRow>,
    row: OutboxRow,
    now: int,
    stale_secs: int,
) -> bool {
    row.task_id is Some && exists|i: int|
        0 <= i < ledger.len() && (#[trigger] ledger[i]).task_id == row.task_id && ledger[i].trigger
            == TriggerKind::Start && ledger[i].status == WebhookExecutionStatus::Pending && now
            - ledger[i].updated_at < stale_secs * 1_000_000
}

/// A row whose time has come.
pub open spec fn is_ready(
    ledger: Seq<LedgerRow>,
    row: OutboxRow,
    now: int,
    stale_secs: int,
) -> bool {
    row.next_attempt_at <= now && !start_under_way(ledger, row, now, stale_secs)
}

/// A claim takes rows whose time has come, each once, the oldest first, and no more than
/// it may. While there is room it leaves none of them behind; and one that it leaves is
/// not older than any that it takes.
pub proof fn oldest_ready_rows_go_first(
    outbox: Seq<OutboxRow>,
    ledger: Seq<LedgerRow>,
    limit: int,
    now: int,
    stale_secs: int,
)
    requires
        limit >= 0,
        forall|i: int|
            0 <= i < outbox.len() ==> i64::MIN <= (#[trigger] outbox[i]).created_at <= i64::MAX,
    ensures
        ({
            let taken = claimable(outbox, ledger, limit, now, stale_secs);
            &&& taken.len() <= limit
            &&& taken.no_duplicates()
            &&& forall|k: int|
                0 <= k < taken.len() ==> 0 <= #[trigger] taken[k] < outbox.len() && is_ready(
                    ledger,
                    outbox[taken[k]],
                    now,
                    stale_secs,
                )
            &&& taken.len() < limit ==> forall|i: int|
                0 <= i < outbox.len() && is_ready(
                    ledger,
                    #[trigger] outbox[i],
                    now,
                    stale_secs,
                ) ==> taken.contains(i)
            &&& forall|k: int, l: int|
                0 <= k < l < taken.len() ==> outbox[#[trigger] taken[k]].created_at
                    <= outbox[#[trigger] taken[l]].created_at
            &&& forall|k: int, i: int|
                #![trigger taken[k], outbox[i]]
                0 <= k < taken.len() && 0 <= i < outbox.len() && is_ready(
                    ledger,
                    outbox[i],
                    now,
                    stale_secs,
                ) && !taken.contains(i) ==> outbox[taken[k]].created_at <= outbox[i].created_at
        }),
{
    let p = deliverable(ledger, now, stale_secs);
    let due = positions(outbox, p);
    let keys = due.map_values(|k: int| age_key(outbox[k]));
    let o = order(keys);
    let all = pick(due, o);
    let taken = claimable(outbox, ledger, limit, now, stale_secs);
    lemma_positions(outbox, p);
    order_sorts(keys);
    assert forall|i: int| 0 <= i < outbox.len() implies p(#[trigger] outbox[i]) == is_ready(
        ledger,
        outbox[i],
        now,
        stale_secs,
    ) by {
        lemma_ready(ledger, outbox[i], now, stale_secs);
    }
    assert forall|k: int| 0 <= k < all.len() implies 0 <= #[trigger] all[k] < outbox.len() && p(
        outbox[all[k]],
    ) by {
        assert(all[k] == due[o[k]]);
    }
    assert forall|k: int, l: int| 0 <= k < l < all.len() implies #[trigger] all[k]
        != #[trigger] all[l] && outbox[all[k]].created_at <= outbox[all[l]].created_at by {
        assert(o[k] != o[l]);
        assert(all[k] == due[o[k]] && all[l] == due[o[l]]);
        assert(crate::order::key_le(keys[o[k]], keys[o[l]]));
        assert(keys[o[k]] == age_key(outbox[due[o[k]]]));
        assert(keys[o[l]] == age_key(outbox[due[o[l]]]));
        if o[k] < o[l] {
            assert(due[o[k]] < due[o[l]]);
        } else {
            assert(due[o[l]] < due[o[k]]);
        }
        assert(0 <= all[k] < outbox.len() && 0 <= all[l] < outbox.len());
        assert(i64::MIN <= outbox[all[k]].created_at <= i64::MAX);
        assert(i64::MIN <= outbox[all[l]].created_at <= i64::MAX);
    }
    assert forall|i: int| 0 <= i < outbox.len() && p(#[trigger] outbox[i]) implies exists|k: int|
        0 <= k < all.len() && #[trigger] all[k] == i by {
        assert(due.contains(i));
        let d = choose|d: int| 0 <= d < due.len() && due[d] == i;
        assert(o.contains(d));
        let k = choose|k: int| 0 <= k < o.len() && o[k] == d;
        assert(all[k] == i);
    }
    assert(forall|k: int| 0 <= k < taken.len() ==> #[trigger] taken[k] == all[k]);
    assert forall|i: int|
        taken.len() < limit && 0 <= i < outbox.len() && is_ready(
            ledger,
            #[trigger] outbox[i],
            now,
            stale_secs,
        ) implies taken.contains(i) by {
        assert(p(outbox[i]));
        let k = choose|k: int| 0 <= k < all.len() && #[trigger] all[k] == i;
        assert(taken[k] == i);
    }
    assert forall|k: int, i: int|
        #![trigger taken[k], outbox[i]]
        0 <= k < taken.len() && 0 <= i < outbox.len() && is_ready(
            ledger,
            outbox[i],
            now,
            stale_secs,
        ) && !taken.contains(i) implies outbox[taken[k]].created_at <= outbox[i].created_at by {
        assert(p(outbox[i]));
        let m = choose|m: int| 0 <= m < all.len() && #[trigger] all[m] == i;
        if m < taken.len() {
            assert(taken[m] == i);
        }
        assert(all[k] == taken[k]);
        assert(k < m);
    }
}

proof fn lemma_ready(ledger: Seq<LedgerRow>, row: OutboxRow, now: int, stale_secs: int)
    ensures
        deliverable(ledger, now, stale_secs)(row) == is_ready(ledger, row, now, stale_secs),
{
    if start_under_way(ledger, row, now, stale_secs) {
        let i = choose|i: int|
            0 <= i < ledger.len() && (#[trigger] ledger[i]).task_id == row.task_id
                && ledger[i].trigger == TriggerKind::Start && ledger[i].status
                == WebhookExecutionStatus::Pending && now - ledger[i].updated_at < stale_secs
                * 1_000_000;
        assert(ledger[i].task_id == row.task_id);
    }
    if crate::db::webhook_outbox::start_in_flight(ledger, row.task_id, now, stale_secs) {
        let i = choose|i: int|
            0 <= i < ledger.len() && row.task_id is Some && (#[trigger] ledger[i]).task_id
                == row.task_id && ledger[i].trigger == TriggerKind::Start && ledger[i].status
                == WebhookExecutionStatus::Pending && ledger[i].updated_at > now - stale_secs
                * 1_000_000;
        assert(ledger[i].task_id == row.task_id);
    }
}

/// A claimed row carries the claim's token and is not due before the lease is over; that
/// is no attempt. A row that was not claimed stays.
pub proof fn leases_hold_rows_back(
    outbox: Seq<OutboxRow>,
    taken: Seq<int>,
    token: u128,
    now: int,
    lease_secs: int,
    i: int,
)
    requires
        0 <= i < outbox.len(),
    ensures
        ({
            let after = leased(outbox, taken, token, now, lease_secs);
            &&& after.len() == outbox.len()
            &&& after[i] == if taken.contains(i) {
                OutboxRow {
                    lease_token: Some(token),
                    next_attempt_at: now + lease_secs * 1_000_000,
                    ..outbox[i]
                }
            } else {
                outbox[i]
            }
        }),
{
}

// ---------------------------------------------------------------------------
// Plans
// ---------------------------------------------------------------------------

proof fn lemma_task_of(tasks: Seq<TaskRow>, id: Option<u128>)
    ensures
        match task_of(tasks, id) {
            Some(t) => tasks.contains(t) && id == Some(t.id),
            None => id is None || forall|i: int|
                0 <= i < tasks.len() ==> id != Some((#[trigger] tasks[i]).id),
        },
    decreases tasks.len(),
{
    if tasks.len() > 0 && id is Some {
        let init = tasks.drop_last();
        if Some(tasks.last().id) == id {
            assert(tasks[tasks.len() - 1] == tasks.last());
        } else {
            lemma_task_of(init, id);
            if task_of(init, id) is Some {
                let t = task_of(init, id)->0;
                let i = choose|i: int| 0 <= i < init.len() && init[i] == t;
                assert(tasks[i] == t);
            } else {
                assert forall|i: int| 0 <= i < tasks.len() implies id != Some(
                    (#[trigger] tasks[i]).id,
                ) by {
                    if i < init.len() {
                        assert(init[i] == tasks[i]);
                    }
                }
            }
        }
    }
}

/// What an event is called in reports.
pub open spec fn event_name(trigger: TriggerKind, condition: TriggerCondition) -> Seq<char> {
    if trigger == TriggerKind::Start {
        "start"@
    } else if trigger == TriggerKind::Cancel {
        "cancel"@
    } else if trigger == TriggerKind::BatchComplete {
        "batch_complete"@
    } else if condition == TriggerCondition::Success {
        "end_success"@
    } else {
        "end_failure"@
    }
}

/// A time from one instant to another, in whole milliseconds; none back in time.
pub open spec fn is_lag(ms: int, from: int, to: int) -> bool {
    if to <= from {
        ms == 0
    } else {
        1000 * ms <= to - from && to - from < 1000 * (ms + 1)
    }
}

/// An action that a row is about: of its task, for its trigger and its condition.
pub open spec fn is_for(row: OutboxRow, a: Action) -> bool {
    Some(a.task_id) == row.task_id && a.trigger == row.trigger && a.condition == row.condition
}

/// What is delivered for a task's row are the actions of that task for that very event,
/// all of them and no others: none of a failed end where the task succeeded, and the other
/// way round. It tells of the task as it is. Where there is no such task or no such
/// action, nothing is sent, and the row counts as delivered.
pub proof fn plans_are_for_their_event(
    row: OutboxRow,
    tasks: Seq<TaskRow>,
    actions: Seq<Action>,
    batches: Seq<Batch>,
    now: int,
    p: PreparedView,
)
    requires
        row.trigger != TriggerKind::BatchComplete,
        row.lease_token is Some,
        prepared_from(row, tasks, actions, batches, now, p),
    ensures
        match p {
            PreparedView::Deliver(plan) => {
                &&& plan.key == row.key
                &&& plan.token == row.lease_token->0
                &&& plan.attempts == row.attempts
                &&& plan.created_at == row.created_at
                &&& plan.label == event_name(row.trigger, row.condition)
                &&& plan.kind matches KindView::Task { task, actions: own, status, ended_at, trigger }
                    && {
                    &&& tasks.contains(task)
                    &&& row.task_id == Some(task.id)
                    &&& status == task.status
                    &&& ended_at == task.ended_at
                    &&& trigger == if row.trigger == TriggerKind::Cancel {
                        "cancel"@
                    } else {
                        "end"@
                    }
                    &&& own.len() > 0
                    &&& forall|k: int|
                        0 <= k < own.len() ==> is_for(row, #[trigger] own[k]) && actions.contains(
                            own[k],
                        )
                    &&& forall|a: Action| #[trigger]
                        actions.contains(a) && is_for(row, a) ==> own.contains(a)
                    &&& own.len() == count(actions, |a: Action| is_for(row, a))
                }
            },
            PreparedView::Mark(m) => {
                &&& m matches MarkView::Success { key, token, lag, label } && key == row.key && token
                    == row.lease_token->0 && label == event_name(row.trigger, row.condition) && (lag
                    is Some ==> is_lag(lag->0, row.created_at, now))
                &&& (forall|i: int|
                    0 <= i < tasks.len() ==> row.task_id != Some((#[trigger] tasks[i]).id)) || (
                forall|a: Action| #[trigger] actions.contains(a) ==> !is_for(row, a))
            },
        },
{
    let sel = actions.filter(actions_for(row));
    lemma_task_of(tasks, row.task_id);
    let q = |a: Action| is_for(row, a);
    lemma_filter_count(actions, actions_for(row), q);
    assert forall|k: int| 0 <= k < sel.len() implies is_for(row, #[trigger] sel[k])
        && actions.contains(sel[k]) by {
        assert(sel.contains(sel[k]));
        lemma_filter_has(actions, actions_for(row), sel[k]);
    }
    assert forall|a: Action| #[trigger] actions.contains(a) && is_for(row, a) implies sel.contains(
        a,
    ) by {
        lemma_filter_has(actions, actions_for(row), a);
    }
    if sel.len() == 0 {
        assert forall|a: Action| #[trigger] actions.contains(a) implies !is_for(row, a) by {
            if is_for(row, a) {
                assert(sel.contains(a));
            }
        }
    }
}

proof fn lemma_payload_of(batches: Seq<Batch>, id: Option<u128>)
    ensures
        match payload_of(batches, id) {
            Some(o) => exists|k: int|
                0 <= k < batches.len() && Some((#[trigger] batches[k]).id) == id
                    && batches[k].on_complete == o,
            None => id is None || forall|k: int|
                0 <= k < batches.len() ==> id != Some((#[trigger] batches[k]).id),
        },
    decreases batches.len(),
{
    if batches.len() > 0 && id is Some {
        let init = batches.drop_last();
        if Some(batches.last().id) == id {
            assert(batches[batches.len() - 1] == batches.last());
        } else {
            lemma_payload_of(init, id);
            if payload_of(init, id) is Some {
                let o = payload_of(init, id)->0;
                let k = choose|k: int|
                    0 <= k < init.len() && Some((#[trigger] init[k]).id) == id
                        && init[k].on_complete == o;
                assert(batches[k] == init[k]);
            } else {
                assert forall|k: int| 0 <= k < batches.len() implies id != Some(
                    (#[trigger] batches[k]).id,
                ) by {
                    if k < init.len() {
                        assert(init[k] == batches[k]);
                    }
                }
            }
        }
    }
}

/// The tasks of a batch that ended in a status.
pub open spec fn ended_in(tasks: Seq<TaskRow>, batch: u128, status: StatusKind) -> nat {
    count(tasks, |t: TaskRow| t.batch_id == Some(batch) && t.status == status)
}

/// The last of a batch's tasks ended at an instant.
pub open spec fn ends_last(tasks: Seq<TaskRow>, batch: u128, at: int) -> bool {
    &&& exists|i: int|
        0 <= i < tasks.len() && (#[trigger] tasks[i]).batch_id == Some(batch) && tasks[i].ended_at
            == Some(at)
    &&& forall|i: int|
        0 <= i < tasks.len() && (#[trigger] tasks[i]).batch_id == Some(batch)
            && tasks[i].ended_at is Some ==> tasks[i].ended_at->0 <= at
}

/// None of a batch's tasks has ended.
pub open spec fn none_ended(tasks: Seq<TaskRow>, batch: u128) -> bool {
    forall|i: int|
        0 <= i < tasks.len() && (#[trigger] tasks[i]).batch_id == Some(batch)
            ==> tasks[i].ended_at is None
}

/// What is delivered for a batch's row are the actions that the batch was created with,
/// and they are told how many of its tasks succeeded, failed and were canceled, and when
/// the last one ended. Where the batch is gone or has no action, the row counts as delivered; one whose actions cannot
/// be read is given up.
pub proof fn batch_plans_tell_how_it_went(
    row: OutboxRow,
    tasks: Seq<TaskRow>,
    actions: Seq<Action>,
    batches: Seq<Batch>,
    now: int,
    p: PreparedView,
)
    requires
        row.trigger == TriggerKind::BatchComplete,
        row.lease_token is Some,
        prepared_from(row, tasks, actions, batches, now, p),
    ensures
        match p {
            PreparedView::Deliver(plan) => {
                &&& plan.key == row.key
                &&& plan.token == row.lease_token->0
                &&& plan.attempts == row.attempts
                &&& plan.created_at == row.created_at
                &&& plan.label == "batch_complete"@
                &&& plan.kind matches KindView::Batch { actions: own, enrichment } && {
                    &&& ends_last(tasks, enrichment.batch_id, enrichment.completed_at as int) || (
                    none_ended(tasks, enrichment.batch_id) && (i64::MIN <= row.updated_at
                        <= i64::MAX ==> enrichment.completed_at == row.updated_at))
                    &&& row.batch_id == Some(enrichment.batch_id)
                    &&& own.len() > 0
                    &&& exists|k: int|
                        0 <= k < batches.len() && Some((#[trigger] batches[k]).id) == row.batch_id
                            && (batches[k].on_complete matches OnComplete::Actions(v) && v@ == own)
                    &&& enrichment.success == ended_in(
                        tasks,
                        enrichment.batch_id,
                        StatusKind::Success,
                    )
                    &&& enrichment.failure == ended_in(
                        tasks,
                        enrichment.batch_id,
                        StatusKind::Failure,
                    )
                    &&& enrichment.canceled == ended_in(
                        tasks,
                        enrichment.batch_id,
                        StatusKind::Canceled,
                    )
                }
            },
            PreparedView::Mark(m) => {
                ||| m matches MarkView::Success { key, token, .. } && key == row.key && token
                    == row.lease_token->0 && (forall|k: int|
                    0 <= k < batches.len() && Some((#[trigger] batches[k]).id) == row.batch_id
                        ==> (exists|j: int|
                        0 <= j < batches.len() && Some((#[trigger] batches[j]).id) == row.batch_id
                            && (batches[j].on_complete matches OnComplete::Actions(v) && v@.len()
                            == 0)))
                ||| m matches MarkView::Exhausted { key, token, .. } && key == row.key && token
                    == row.lease_token->0 && exists|k: int|
                    0 <= k < batches.len() && Some((#[trigger] batches[k]).id) == row.batch_id
                        && batches[k].on_complete is Malformed
            },
        },
{
    lemma_payload_of(batches, row.batch_id);
    if row.batch_id is Some {
        let b = row.batch_id->0;
        lemma_count_like(
            tasks,
            crate::db::webhook_execution::in_batch_with(b, StatusKind::Success),
            |t: TaskRow| t.batch_id == Some(b) && t.status == StatusKind::Success,
        );
        lemma_count_like(
            tasks,
            crate::db::webhook_execution::in_batch_with(b, StatusKind::Failure),
            |t: TaskRow| t.batch_id == Some(b) && t.status == StatusKind::Failure,
        );
        lemma_count_like(
            tasks,
            crate::db::webhook_execution::in_batch_with(b, StatusKind::Canceled),
            |t: TaskRow| t.batch_id == Some(b) && t.status == StatusKind::Canceled,
        );
    }
}

/// Every prepared row is to be sent or to be marked, and both lists keep the order.
pub proof fn prepared_rows_go_one_way(ps: Seq<PreparedView>)
    ensures
        marks_in(ps).len() + plans_in(ps).len() == ps.len(),
        forall|i: int|
            0 <= i < ps.len() ==> match #[trigger] ps[i] {
                PreparedView::Mark(m) => marks_in(ps).contains(m),
                PreparedView::Deliver(p) => plans_in(ps).contains(p),
            },
    decreases ps.len(),
{
    if ps.len() > 0 {
        let init = ps.drop_last();
        prepared_rows_go_one_way(init);
        let n = ps.len() - 1;
        assert(ps[n] == ps.last());
        assert forall|i: int| 0 <= i < ps.len() implies match #[trigger] ps[i] {
            PreparedView::Mark(m) => marks_in(ps).contains(m),
            PreparedView::Deliver(p) => plans_in(ps).contains(p),
        } by {
            if i < n {
                assert(init[i] == ps[i]);
                match ps[i] {
                    PreparedView::Mark(m) => {
                        let a = marks_in(init);
                        let k = choose|k: int| 0 <= k < a.len() && a[k] == m;
                        assert(marks_in(ps)[k] == m);
                    },
                    PreparedView::Deliver(p) => {
                        let a = plans_in(init);
                        let k = choose|k: int| 0 <= k < a.len() && a[k] == p;
                        assert(plans_in(ps)[k] == p);
                    },
                }
            } else {
                match ps[i] {
                    PreparedView::Mark(m) => {
                        assert(marks_in(ps)[marks_in(ps).len() - 1] == m);
                    },
                    PreparedView::Deliver(p) => {
                        assert(plans_in(ps)[plans_in(ps).len() - 1] == p);
                    },
                }
            }
        }
    }
}

// ---------------------------------------------------------------------------
// Outcomes
// ---------------------------------------------------------------------------

/// The errors of an attempt are those of its actions: none if and only if all went
/// through. Joined, they stand one after the other.
pub proof fn errors_are_those_of_the_actions(
    outcomes: Seq<Result<(), String>>,
    parts: Seq<Seq<char>>,
    more: Seq<char>,
)
    ensures
        errors_of(outcomes).len() == 0 <==> forall|i: int|
            0 <= i < outcomes.len() ==> (#[trigger] outcomes[i]) is Ok,
        errors_of(outcomes).len() == count(outcomes, |o: Result<(), String>| o is Err),
        forall|i: int|
            0 <= i < outcomes.len() && (#[trigger] outcomes[i]) is Err ==> errors_of(
                outcomes,
            ).contains(outcomes[i]->Err_0@),
        joined(seq![more]) == more,
        parts.len() > 0 ==> joined(parts.push(more)) == joined(parts) + "; "@ + more,
    decreases outcomes.len(),
{
    assert(parts.push(more).drop_last() =~= parts);
    if outcomes.len() > 0 {
        let init = outcomes.drop_last();
        let n = outcomes.len() - 1;
        errors_are_those_of_the_actions(init, parts, more);
        assert(outcomes[n] == outcomes.last());
        assert forall|i: int| 0 <= i < outcomes.len() && (
        #[trigger] outcomes[i]) is Err implies errors_of(outcomes).contains(
            outcomes[i]->Err_0@,
        ) by {
            let before = errors_of(init);
            let e = errors_of(outcomes);
            if i < n {
                assert(init[i] == outcomes[i]);
                let k = choose|k: int| 0 <= k < before.len() && before[k] == outcomes[i]->Err_0@;
                assert(e[k] == before[k]);
            } else {
                assert(e[e.len() - 1] == outcomes[i]->Err_0@);
            }
        }
        if errors_of(outcomes).len() == 0 {
            assert forall|i: int| 0 <= i < outcomes.len() implies (#[trigger] outcomes[i]) is Ok by {
                if i < n {
                    assert(init[i] == outcomes[i]);
                }
            }
        }
        if forall|i: int| 0 <= i < outcomes.len() ==> (#[trigger] outcomes[i]) is Ok {
            assert(outcomes[n] is Ok);
            assert forall|i: int| 0 <= i < init.len() implies (#[trigger] init[i]) is Ok by {
                assert(outcomes[i] is Ok);
            }
        }
    }
}

/// An attempt without errors is a success. One with errors is tried again after a delay,
/// the base to the power of the attempts made by then, or the cap if that is less; unless
/// it was the last one allowed. Then it is given up.
pub proof fn failures_are_retried_up_to_a_limit(
    plan: PlanView,
    errors: Seq<Seq<char>>,
    cfg: DeliveryConfig,
    now: int,
)
    requires
        plan.attempts >= 0,
        cfg.backoff_base_secs >= 0,
    ensures
        ({
            let v = verdict(plan, errors, cfg, now);
            let made = plan.attempts + 1;
            let delay = pow(cfg.backoff_base_secs as int, made as nat);
            &&& v is Success <==> errors.len() == 0
            &&& v is Exhausted <==> errors.len() > 0 && made >= cfg.max_attempts
            &&& v is Retry <==> errors.len() > 0 && made < cfg.max_attempts
            &&& v matches MarkView::Success { key, token, lag, label } ==> key == plan.key && token
                == plan.token && label == plan.label && lag is Some && is_lag(
                lag->0,
                plan.created_at,
                now,
            )
            &&& v matches MarkView::Exhausted { key, token, error, label } ==> key == plan.key
                && token == plan.token && error == joined(errors) && label == plan.label
            &&& v matches MarkView::Retry { key, token, error, backoff, label } ==> {
                &&& key == plan.key
                &&& label == plan.label
                &&& token == plan.token
                &&& error == joined(errors)
                &&& backoff == if delay < cfg.backoff_cap_secs {
                    delay
                } else {
                    cfg.backoff_cap_secs as int
                }
            }
        }),
{
    crate::workers::delivery_loop::backoff_is_capped_power(
        cfg.backoff_base_secs as int,
        cfg.backoff_cap_secs as int,
        plan.attempts as nat,
    );
}

/// The row that a mark is about: of its key, and under its claim.
pub open spec fn marks_row(m: MarkView, r: OutboxRow) -> bool {
    match m {
        MarkView::Success { key, token, .. } => r.key == key && r.lease_token == Some(token),
        MarkView::Retry { key, token, .. } => r.key == key && r.lease_token == Some(token),
        MarkView::Exhausted { key, token, .. } => r.key == key && r.lease_token == Some(token),
    }
}

/// A mark counts only while its claim holds the row. A success and a failure for good take
/// the row out of the queue and put it on record, with its error and one more attempt in
/// the latter case. A failure that may be tried again counts the attempt, keeps the error,
/// cut to its limit, and sets when the next one is due.
pub proof fn marks_settle_their_row(
    outbox: Seq<OutboxRow>,
    ledger: Seq<LedgerRow>,
    m: MarkView,
    now: int,
    i: int,
)
    requires
        unique_queue_keys(outbox),
        0 <= i < outbox.len(),
        marks_row(m, outbox[i]),
        forall|k: int| 0 <= k < ledger.len() ==> (#[trigger] ledger[k]).key != outbox[i].key,
    ensures
        ({
            let o = marked_outbox(outbox, m, now);
            let l = marked_ledger(outbox, ledger, m, now);
            let r = outbox[i];
            match m {
                MarkView::Success { .. } => {
                    &&& o == outbox.remove(i)
                    &&& l.len() == ledger.len() + 1
                    &&& l.take(ledger.len() as int) == ledger
                    &&& l.last().key == r.key
                    &&& l.last().status == WebhookExecutionStatus::Success
                    &&& l.last().attempts == r.attempts
                    &&& l.last().last_error is None
                    &&& l.last().updated_at == now
                    &&& l.last().task_id == r.task_id && l.last().batch_id == r.batch_id
                    &&& l.last().trigger == r.trigger && l.last().condition == r.condition
                    &&& l.last().created_at == r.created_at
                },
                MarkView::Exhausted { error, .. } => {
                    &&& o == outbox.remove(i)
                    &&& l.len() == ledger.len() + 1
                    &&& l.take(ledger.len() as int) == ledger
                    &&& l.last().key == r.key
                    &&& l.last().status == WebhookExecutionStatus::Exhausted
                    &&& l.last().attempts == r.attempts + 1
                    &&& l.last().last_error matches Some(e) && e == (if error.len()
                        <= MAX_ERROR_CHARS {
                        error
                    } else {
                        error.take(MAX_ERROR_CHARS as int)
                    })
                    &&& l.last().updated_at == now
                    &&& l.last().task_id == r.task_id && l.last().batch_id == r.batch_id
                    &&& l.last().trigger == r.trigger && l.last().condition == r.condition
                    &&& l.last().created_at == r.created_at
                },
                MarkView::Retry { error, backoff, .. } => {
                    &&& l == ledger
                    &&& o.len() == outbox.len()
                    &&& forall|k: int| 0 <= k < outbox.len() && k != i ==> o[k] == outbox[k]
                    &&& o[i].attempts == r.attempts + 1
                    &&& o[i].next_attempt_at == now + backoff * 1_000_000
                    &&& o[i].updated_at == now
                    &&& o[i].last_error matches Some(e) && e == (if error.len()
                        <= MAX_ERROR_CHARS {
                        error
                    } else {
                        error.take(MAX_ERROR_CHARS as int)
                    })
                    &&& o[i].key == r.key && o[i].task_id == r.task_id && o[i].batch_id
                        == r.batch_id
                    &&& o[i].trigger == r.trigger && o[i].condition == r.condition
                    &&& o[i].created_at == r.created_at
                },
            }
        }),
{
    let w = marked_at(outbox, m);
    assert(outbox[i].key == crate::workers::delivery_loop::mark_key(m));
    assert(crate::db::webhook_outbox::held(
        crate::workers::delivery_loop::mark_key(m),
        crate::workers::delivery_loop::mark_token(m),
    )(outbox[i]));
    assert(crate::db::webhook_outbox::holds_lease(
        outbox,
        crate::workers::delivery_loop::mark_key(m),
        crate::workers::delivery_loop::mark_token(m),
    ));
    assert(outbox[w].key == outbox[i].key);
    assert(w == i);
    assert(!crate::db::webhook_outbox::recorded(ledger, outbox[i].key));
    let l = marked_ledger(outbox, ledger, m, now);
    if !(m is Retry) {
        assert(l.take(ledger.len() as int) =~= ledger);
    }
}

/// A mark whose claim has lost the row changes nothing.
pub proof fn late_marks_are_dropped(
    outbox: Seq<OutboxRow>,
    ledger: Seq<LedgerRow>,
    m: MarkView,
    now: int,
)
    requires
        forall|i: int| 0 <= i < outbox.len() ==> !marks_row(m, #[trigger] outbox[i]),
    ensures
        marked_outbox(outbox, m, now) == outbox,
        marked_ledger(outbox, ledger, m, now) == ledger,
{
    let key = crate::workers::delivery_loop::mark_key(m);
    let token = crate::workers::delivery_loop::mark_token(m);
    if crate::db::webhook_outbox::holds_lease(outbox, key, token) {
        let i = choose|i: int|
            0 <= i < outbox.len() && crate::db::webhook_outbox::held(key, token)(
                #[trigger] outbox[i],
            );
        assert(marks_row(m, outbox[i]));
    }
}

/// Marks are recorded one after the other, each on what the ones before it left. One
/// counts as taken if and only if its claim still holds its row then.
pub proof fn marks_are_recorded_in_turn(
    outbox: Seq<OutboxRow>,
    ledger: Seq<LedgerRow>,
    marks: Seq<MarkView>,
    m: MarkView,
    now: int,
)
    ensures
        ({
            let (o, l) = all_marked(outbox, ledger, marks, now);
            let held = marks_held(outbox, ledger, marks.push(m), now);
            &&& all_marked(outbox, ledger, Seq::empty(), now) == (outbox, ledger)
            &&& all_marked(outbox, ledger, marks.push(m), now) == (
                marked_outbox(o, m, now),
                marked_ledger(o, l, m, now),
            )
            &&& held.len() == marks.len() + 1
            &&& held.take(marks.len() as int) == marks_held(outbox, ledger, marks, now)
            &&& held[marks.len() as int] <==> exists|i: int|
                0 <= i < o.len() && marks_row(m, #[trigger] o[i])
        }),
{
    let all = marks.push(m);
    let o = all_marked(outbox, ledger, marks, now).0;
    assert(all.drop_last() =~= marks);
    lemma_held_len(outbox, ledger, marks, now);
    let held = marks_held(outbox, ledger, all, now);
    assert(held.take(marks.len() as int) =~= marks_held(outbox, ledger, marks, now));
    let key = crate::workers::delivery_loop::mark_key(m);
    let token = crate::workers::delivery_loop::mark_token(m);
    if crate::db::webhook_outbox::holds_lease(o, key, token) {
        let i = choose|i: int|
            0 <= i < o.len() && crate::db::webhook_outbox::held(key, token)(#[trigger] o[i]);
        assert(marks_row(m, o[i]));
    }
    if exists|i: int| 0 <= i < o.len() && marks_row(m, #[trigger] o[i]) {
        let i = choose|i: int| 0 <= i < o.len() && marks_row(m, #[trigger] o[i]);
        assert(crate::db::webhook_outbox::held(key, token)(o[i]));
    }
}

proof fn lemma_held_len(
    outbox: Seq<OutboxRow>,
    ledger: Seq<LedgerRow>,
    marks: Seq<MarkView>,
    now: int,
)
    ensures
        marks_held(outbox, ledger, marks, now).len() == marks.len(),
    decreases marks.len(),
{
    if marks.len() > 0 {
        lemma_held_len(outbox, ledger, marks.drop_last(), now);
    }
}

/// Different events have different labels, which name them, and a delay is told in whole
/// milliseconds.
pub proof fn labels_tell_events_apart(
    a: TriggerKind,
    ca: TriggerCondition,
    b: TriggerKind,
    cb: TriggerCondition,
    created_at: int,
    now: int,
)
    requires
        label_of(a, ca) == label_of(b, cb),
    ensures
        a == b,
        a == TriggerKind::End ==> ca == cb,
        label_of(a, ca) == event_name(a, ca),
        is_lag(lag(created_at, now), created_at, now),
{
    reveal_strlit("end_success");
    reveal_strlit("end_failure");
    reveal_strlit("cancel");
    reveal_strlit("start");
    reveal_strlit("batch_complete");
    assert("end_success"@.len() == 11 && "end_failure"@.len() == 11);
    assert("cancel"@.len() == 6 && "start"@.len() == 5 && "batch_complete"@.len() == 14);
    assert("end_success"@[4] == 's' && "end_failure"@[4] == 'f');
    assert(label_of(a, ca)[4] == label_of(b, cb)[4]);
}

} // verus!
