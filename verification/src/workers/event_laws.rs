//! Which events the end of a task gives rise to, and how batches count them.

use crate::action::{batch_key, idem_key};
use crate::db::task_lifecycle::{after_stop, stop_notified};
use crate::db::webhook_execution::{
    completed_row, completes, decremented, registered_batch, signalled, with_remaining,
};
use crate::db::webhook_outbox::{batch_row, enqueued, immature, mature, oldest_age, queued, recorded};
use crate::models::{
    Batch, LedgerRow, OnComplete, OutboxRow, StatusKind, TaskRow, TriggerCondition, TriggerKind,
    WebhookExecutionStatus,
};
use crate::store::Tables;
use crate::tally::{count, ids_where, lemma_count_like, lemma_ids_where_has};
use crate::workers::finish::{
    dead_ends, finished, noticed, reported, terminal_ids, told, Finish, Notice,
};
use crate::workers::graph_laws::{climb_frame, climb_step, propagation_frame};
use crate::workers::propagation::{climb, propagation, unique_ids, CanceledAncestor};
use crate::workers::webhooks::{cancel_row, end_row, with_ancestors, with_cancels, with_ends};
use vstd::prelude::*;

verus! {

/// A row that was just queued: nothing was tried yet, nobody holds it, and it is due.
pub open spec fn just_queued(r: OutboxRow, now: int) -> bool {
    &&& r.attempts == 0
    &&& r.created_at == now
    &&& r.updated_at == now
    &&& r.next_attempt_at == now
    &&& r.last_error is None
    &&& r.lease_token is None
}

/// A row that tells of the end of a task, good or bad.
pub open spec fn tells_end(r: OutboxRow, task: u128, good: bool) -> bool {
    &&& r.task_id == Some(task)
    &&& r.batch_id is None
    &&& r.trigger == TriggerKind::End
    &&& r.condition == if good {
        TriggerCondition::Success
    } else {
        TriggerCondition::Failure
    }
    &&& r.key == idem_key(r.task_id->0, r.trigger, r.condition)
}

/// A row that tells of a task's cancellation.
pub open spec fn tells_cancel(r: OutboxRow, task: u128) -> bool {
    &&& r.task_id == Some(task)
    &&& r.batch_id is None
    &&& r.trigger == TriggerKind::Cancel
    &&& r.condition == TriggerCondition::Success
    &&& r.key == idem_key(r.task_id->0, r.trigger, r.condition)
}

/// A row that tells of a batch's completion.
pub open spec fn tells_completion(r: OutboxRow, batch: u128) -> bool {
    &&& r.task_id is None
    &&& r.batch_id == Some(batch)
    &&& r.trigger == TriggerKind::BatchComplete
    &&& r.condition == TriggerCondition::Success
    &&& r.key == batch_key(batch)
}

/// One queue goes on where another ends, and all that was added satisfies `p`.
pub open spec fn grown(
    a: Seq<OutboxRow>,
    b: Seq<OutboxRow>,
    p: spec_fn(OutboxRow) -> bool,
) -> bool {
    &&& a.len() <= b.len()
    &&& forall|i: int| 0 <= i < a.len() ==> b[i] == a[i]
    &&& forall|i: int| a.len() <= i < b.len() ==> p(#[trigger] b[i])
}

proof fn lemma_grown(
    a: Seq<OutboxRow>,
    b: Seq<OutboxRow>,
    c: Seq<OutboxRow>,
    p: spec_fn(OutboxRow) -> bool,
    q: spec_fn(OutboxRow) -> bool,
    r: spec_fn(OutboxRow) -> bool,
)
    requires
        grown(a, b, p),
        grown(b, c, q),
        forall|x: OutboxRow| #[trigger] p(x) ==> r(x),
        forall|x: OutboxRow| #[trigger] q(x) ==> r(x),
    ensures
        grown(a, c, r),
{
    assert forall|i: int| a.len() <= i < c.len() implies r(#[trigger] c[i]) by {
        if i < b.len() {
            assert(c[i] == b[i]);
            assert(p(b[i]));
        } else {
            assert(q(c[i]));
        }
    }
    assert forall|i: int| 0 <= i < a.len() implies c[i] == a[i] by {
        assert(c[i] == b[i]);
    }
}

proof fn lemma_with_ends(
    outbox: Seq<OutboxRow>,
    ledger: Seq<LedgerRow>,
    tasks: Seq<u128>,
    status: StatusKind,
    now: int,
)
    ensures
        grown(
            outbox,
            with_ends(outbox, ledger, tasks, status, now),
            |r: OutboxRow|
                just_queued(r, now) && r.task_id is Some && tasks.contains(r.task_id->0)
                    && tells_end(r, r.task_id->0, status == StatusKind::Success),
        ),
    decreases tasks.len(),
{
    let p = |r: OutboxRow|
        just_queued(r, now) && r.task_id is Some && tasks.contains(r.task_id->0) && tells_end(
            r,
            r.task_id->0,
            status == StatusKind::Success,
        );
    if tasks.len() > 0 {
        let init = tasks.drop_last();
        let b = with_ends(outbox, ledger, init, status, now);
        let c = with_ends(outbox, ledger, tasks, status, now);
        lemma_with_ends(outbox, ledger, init, status, now);
        let q = |r: OutboxRow|
            just_queued(r, now) && r.task_id is Some && init.contains(r.task_id->0) && tells_end(
                r,
                r.task_id->0,
                status == StatusKind::Success,
            );
        assert(tasks[tasks.len() - 1] == tasks.last());
        assert(tasks.contains(tasks.last()));
        assert forall|r: OutboxRow| #[trigger] q(r) implies p(r) by {
            let k = choose|k: int| 0 <= k < init.len() && init[k] == r.task_id->0;
            assert(tasks[k] == r.task_id->0);
        }
        assert(p(end_row(tasks.last(), status, now)));
        assert(grown(b, c, p));
        lemma_grown(outbox, b, c, q, p, p);
    }
}

proof fn lemma_with_cancels(
    outbox: Seq<OutboxRow>,
    ledger: Seq<LedgerRow>,
    tasks: Seq<u128>,
    now: int,
)
    ensures
        grown(
            outbox,
            with_cancels(outbox, ledger, tasks, now),
            |r: OutboxRow|
                just_queued(r, now) && r.task_id is Some && tasks.contains(r.task_id->0)
                    && tells_cancel(r, r.task_id->0),
        ),
    decreases tasks.len(),
{
    let p = |r: OutboxRow|
        just_queued(r, now) && r.task_id is Some && tasks.contains(r.task_id->0) && tells_cancel(
            r,
            r.task_id->0,
        );
    if tasks.len() > 0 {
        let init = tasks.drop_last();
        let b = with_cancels(outbox, ledger, init, now);
        let c = with_cancels(outbox, ledger, tasks, now);
        lemma_with_cancels(outbox, ledger, init, now);
        let q = |r: OutboxRow|
            just_queued(r, now) && r.task_id is Some && init.contains(r.task_id->0)
                && tells_cancel(r, r.task_id->0);
        assert(tasks[tasks.len() - 1] == tasks.last());
        assert(tasks.contains(tasks.last()));
        assert forall|r: OutboxRow| #[trigger] q(r) implies p(r) by {
            let k = choose|k: int| 0 <= k < init.len() && init[k] == r.task_id->0;
            assert(tasks[k] == r.task_id->0);
        }
        assert(p(cancel_row(tasks.last(), now)));
        assert(grown(b, c, p));
        lemma_grown(outbox, b, c, q, p, p);
    }
}

/// A row for a canceled ancestor: a bad end, or a cancellation where it was in a
/// worker's hands.
pub open spec fn tells_of_ancestor(r: OutboxRow, canceled: Seq<CanceledAncestor>) -> bool {
    exists|k: int|
        0 <= k < canceled.len() && (tells_end(r, (#[trigger] canceled[k]).id, false) || (
        canceled[k].was_active && tells_cancel(r, canceled[k].id)))
}

proof fn lemma_with_ancestors(
    outbox: Seq<OutboxRow>,
    ledger: Seq<LedgerRow>,
    canceled: Seq<CanceledAncestor>,
    now: int,
)
    ensures
        grown(
            outbox,
            with_ancestors(outbox, ledger, canceled, now),
            |r: OutboxRow| just_queued(r, now) && tells_of_ancestor(r, canceled),
        ),
    decreases canceled.len(),
{
    let p = |r: OutboxRow| just_queued(r, now) && tells_of_ancestor(r, canceled);
    if canceled.len() > 0 {
        let init = canceled.drop_last();
        let b = with_ancestors(outbox, ledger, init, now);
        let c = with_ancestors(outbox, ledger, canceled, now);
        lemma_with_ancestors(outbox, ledger, init, now);
        let q = |r: OutboxRow| just_queued(r, now) && tells_of_ancestor(r, init);
        let a = canceled[canceled.len() - 1];
        assert(a == canceled.last());
        assert forall|r: OutboxRow| #[trigger] q(r) implies p(r) by {
            let k = choose|k: int|
                0 <= k < init.len() && (tells_end(r, (#[trigger] init[k]).id, false) || (
                init[k].was_active && tells_cancel(r, init[k].id)));
            assert(canceled[k] == init[k]);
        }
        let e = end_row(a.id, StatusKind::Failure, now);
        let x = cancel_row(a.id, now);
        assert(tells_end(e, canceled[canceled.len() - 1].id, false));
        assert(p(e));
        assert(a.was_active ==> p(x)) by {
            assert(tells_cancel(x, canceled[canceled.len() - 1].id));
        }
        let m = if a.was_active {
            enqueued(b, ledger, x)
        } else {
            b
        };
        assert(grown(b, m, p));
        assert(grown(m, c, p));
        lemma_grown(b, m, c, p, p, p);
        lemma_grown(outbox, b, c, q, p, p);
    }
}

/// A row that tells of the completion of one of the batches that satisfy `p`.
pub open spec fn tells_of_batch(
    r: OutboxRow,
    batches: Seq<Batch>,
    p: spec_fn(Batch) -> bool,
) -> bool {
    exists|k: int|
        0 <= k < batches.len() && p(#[trigger] batches[k]) && tells_completion(r, batches[k].id)
}

proof fn lemma_signalled(
    outbox: Seq<OutboxRow>,
    ledger: Seq<LedgerRow>,
    batches: Seq<Batch>,
    p: spec_fn(Batch) -> bool,
    now: int,
)
    ensures
        grown(
            outbox,
            signalled(outbox, ledger, batches, p, now),
            |r: OutboxRow| just_queued(r, now) && tells_of_batch(r, batches, p),
        ),
        forall|k: int|
            0 <= k < batches.len() && p(#[trigger] batches[k]) ==> queued(
                signalled(outbox, ledger, batches, p, now),
                batch_key(batches[k].id),
            ) || recorded(ledger, batch_key(batches[k].id)),
    decreases batches.len(),
{
    let g = |r: OutboxRow| just_queued(r, now) && tells_of_batch(r, batches, p);
    if batches.len() > 0 {
        let init = batches.drop_last();
        let b = signalled(outbox, ledger, init, p, now);
        let c = signalled(outbox, ledger, batches, p, now);
        lemma_signalled(outbox, ledger, init, p, now);
        let q = |r: OutboxRow| just_queued(r, now) && tells_of_batch(r, init, p);
        let n = batches.len() - 1;
        assert(batches[n] == batches.last());
        assert forall|r: OutboxRow| #[trigger] q(r) implies g(r) by {
            let k = choose|k: int|
                0 <= k < init.len() && p(#[trigger] init[k]) && tells_completion(r, init[k].id);
            assert(batches[k] == init[k]);
        }
        let row = batch_row(batches[n].id, batch_key(batches[n].id), now);
        if p(batches[n]) {
            assert(tells_completion(row, batches[n].id));
            assert(g(row));
        }
        assert(grown(b, c, g));
        lemma_grown(outbox, b, c, q, g, g);
        assert forall|k: int| 0 <= k < batches.len() && p(#[trigger] batches[k]) implies queued(
            c,
            batch_key(batches[k].id),
        ) || recorded(ledger, batch_key(batches[k].id)) by {
            let key = batch_key(batches[k].id);
            if k < n {
                assert(init[k] == batches[k]);
                if queued(b, key) {
                    let i = choose|i: int| 0 <= i < b.len() && (#[trigger] b[i]).key == key;
                    assert(c[i] == b[i]);
                }
            } else if !queued(b, key) && !recorded(ledger, key) {
                assert(c[b.len() as int] == row);
            }
        }
    }
}

/// The number of a batch's tasks among `ids`.
pub open spec fn taken_off(tasks: Seq<TaskRow>, ids: Seq<u128>, batch: u128) -> nat {
    count(tasks, |t: TaskRow| ids.contains(t.id) && t.batch_id == Some(batch))
}

/// Every event that the end of a task adds to the queue is true. It is the task's own
/// end, good exactly where it succeeded, or its cancellation, as was asked for; a bad end
/// of a task that failed with it or was canceled as a dead end; the cancellation of such a
/// dead end that was in a worker's hands; or the completion of a batch with nothing left
/// to do that wants to be told. What was queued before stays.
pub proof fn queued_events_are_true(
    s: Tables,
    id: u128,
    status: StatusKind,
    dead_end_enabled: bool,
    notice: Notice,
    now: int,
    i: int,
)
    requires
        0 <= i < finished(s, id, status, dead_end_enabled, notice, now).outbox.len(),
    ensures
        ({
            let f = finished(s, id, status, dead_end_enabled, notice, now);
            let spread = propagation(s.tasks, s.links, id, status, now);
            let top = dead_ends(spread, s.links, id, dead_end_enabled, now);
            let r = f.outbox[i];
            &&& i < s.outbox.len() ==> r == s.outbox[i]
            &&& i >= s.outbox.len() ==> {
                &&& just_queued(r, now)
                &&& {
                    ||| notice == Notice::End && tells_end(r, id, status == StatusKind::Success)
                    ||| notice == Notice::Cancel && tells_cancel(r, id)
                    ||| r.task_id is Some && spread.failed.contains(r.task_id->0) && tells_end(
                        r,
                        r.task_id->0,
                        false,
                    )
                    ||| tells_of_ancestor(r, top.canceled)
                    ||| exists|k: int|
                        0 <= k < f.batches.len() && (#[trigger] f.batches[k]).remaining == 0
                            && f.batches[k].id == s.batches[k].id && !(
                        s.batches[k].on_complete matches OnComplete::Actions(v) && v@.len() == 0)
                            && tells_completion(r, f.batches[k].id)
                }
            }
        }),
{
    let f = finished(s, id, status, dead_end_enabled, notice, now);
    let spread = propagation(s.tasks, s.links, id, status, now);
    let top = dead_ends(spread, s.links, id, dead_end_enabled, now);
    let ids = terminal_ids(id, spread.failed, top.canceled);
    let a = s.outbox;
    let b = noticed(s, id, status, notice, now);
    let c = with_ends(b, s.ledger, spread.failed, StatusKind::Failure, now);
    let d = told(s, id, status, dead_end_enabled, notice, now);
    let own = |r: OutboxRow|
        just_queued(r, now) && ((notice == Notice::End && tells_end(
            r,
            id,
            status == StatusKind::Success,
        )) || (notice == Notice::Cancel && tells_cancel(r, id)));
    assert(own(end_row(id, status, now)) || notice != Notice::End);
    assert(own(cancel_row(id, now)) || notice != Notice::Cancel);
    assert(grown(a, b, own));
    lemma_with_ends(b, s.ledger, spread.failed, StatusKind::Failure, now);
    lemma_with_ancestors(c, s.ledger, top.canceled, now);
    let p = completes(f.tasks, ids);
    lemma_signalled(d, s.ledger, s.batches, p, now);
    let q = |r: OutboxRow| just_queued(r, now) && tells_of_batch(r, s.batches, p);
    if i >= d.len() {
        let r = f.outbox[i];
        assert(q(r));
        let k = choose|k: int|
            0 <= k < s.batches.len() && p(#[trigger] s.batches[k]) && tells_completion(
                r,
                s.batches[k].id,
            );
        assert(f.batches[k] == decremented(f.tasks, ids)(s.batches[k]));
    } else if i >= a.len() {
        assert(f.outbox[i] == d[i]);
        if i < c.len() {
            assert(d[i] == c[i]);
            if i < b.len() {
                assert(c[i] == b[i]);
            }
        }
    }
}

/// A batch counts off the tasks of its own that came to an end, each once, and never
/// below zero. Where that leaves it none and it wants to be told, its completion is on
/// its way.
pub proof fn batches_count_their_own_tasks(
    s: Tables,
    id: u128,
    status: StatusKind,
    dead_end_enabled: bool,
    notice: Notice,
    now: int,
    k: int,
)
    requires
        0 <= k < s.batches.len(),
    ensures
        ({
            let f = finished(s, id, status, dead_end_enabled, notice, now);
            let spread = propagation(s.tasks, s.links, id, status, now);
            let top = dead_ends(spread, s.links, id, dead_end_enabled, now);
            let ids = seq![id] + spread.failed + top.canceled.map_values(|a: CanceledAncestor| a.id);
            let b = s.batches[k];
            let n = taken_off(f.tasks, ids, b.id);
            &&& f.batches.len() == s.batches.len()
            &&& f.batches[k].id == b.id && f.batches[k].on_complete == b.on_complete
                && f.batches[k].created_at == b.created_at && f.batches[k].scope == b.scope
                && f.batches[k].metadata == b.metadata
            &&& n == 0 ==> f.batches[k].remaining == b.remaining
            &&& 0 < n <= b.remaining ==> f.batches[k].remaining == b.remaining - n
            &&& n > 0 && n > b.remaining ==> f.batches[k].remaining == 0
            &&& n > 0 && f.batches[k].remaining == 0 && !(b.on_complete matches OnComplete::Actions(
                v,
            ) && v@.len() == 0) ==> queued(f.outbox, batch_key(b.id)) || recorded(
                f.ledger,
                batch_key(b.id),
            )
        }),
{
    let f = finished(s, id, status, dead_end_enabled, notice, now);
    let spread = propagation(s.tasks, s.links, id, status, now);
    let top = dead_ends(spread, s.links, id, dead_end_enabled, now);
    let ids = terminal_ids(id, spread.failed, top.canceled);
    assert(ids == seq![id] + spread.failed + top.canceled.map_values(|a: CanceledAncestor| a.id));
    let b = s.batches[k];
    lemma_count_like(
        f.tasks,
        crate::db::webhook_execution::of_batch(ids, b.id),
        |t: TaskRow| ids.contains(t.id) && t.batch_id == Some(b.id),
    );
    let d = told(s, id, status, dead_end_enabled, notice, now);
    lemma_signalled(d, s.ledger, s.batches, completes(f.tasks, ids), now);
    assert(f.batches[k] == decremented(f.tasks, ids)(s.batches[k]));
}

/// A stopped batch tells of the cancellation of those of its tasks that were in a
/// worker's hands, and of nobody else's, and of its own completion.
pub proof fn stopped_batches_tell_the_workers(s: Tables, batch: u128, now: int, i: int)
    requires
        0 <= i < after_stop(s, batch, now).outbox.len(),
    ensures
        ({
            let f = after_stop(s, batch, now);
            let r = f.outbox[i];
            &&& i < s.outbox.len() ==> r == s.outbox[i]
            &&& i >= s.outbox.len() ==> {
                &&& just_queued(r, now)
                &&& {
                    ||| tells_completion(r, batch)
                    ||| exists|k: int|
                        0 <= k < s.tasks.len() && tells_cancel(r, (#[trigger] s.tasks[k]).id)
                            && s.tasks[k].batch_id == Some(batch) && (s.tasks[k].status
                            == StatusKind::Running || s.tasks[k].status == StatusKind::Claimed)
                }
            }
        }),
{
    let ids = stop_notified(s.tasks, batch);
    let told = with_cancels(s.outbox, s.ledger, ids, now);
    let p = registered_batch(batch);
    let running = crate::db::task_lifecycle::batch_tasks_in(batch, StatusKind::Running);
    let claimed = crate::db::task_lifecycle::batch_tasks_in(batch, StatusKind::Claimed);
    lemma_with_cancels(s.outbox, s.ledger, ids, now);
    lemma_signalled(told, s.ledger, s.batches, p, now);
    let r = after_stop(s, batch, now).outbox[i];
    if s.outbox.len() <= i < told.len() {
        assert(r == told[i]);
        let t = r.task_id->0;
        let k = choose|k: int| 0 <= k < ids.len() && ids[k] == t;
        let a = ids_where(s.tasks, running);
        let b = ids_where(s.tasks, claimed);
        lemma_ids_where_has(s.tasks, running, t);
        lemma_ids_where_has(s.tasks, claimed, t);
        if k < a.len() {
            assert(a[k] == t);
            let j = choose|j: int|
                0 <= j < s.tasks.len() && #[trigger] s.tasks[j].id == t && running(s.tasks[j]);
            assert(tells_cancel(r, s.tasks[j].id));
        } else {
            assert(b[k - a.len()] == t);
            let j = choose|j: int|
                0 <= j < s.tasks.len() && #[trigger] s.tasks[j].id == t && claimed(s.tasks[j]);
            assert(tells_cancel(r, s.tasks[j].id));
        }
    }
}

/// A batch is given the number of its tasks, and no other batch changes. One without any
/// is complete at once, if it wants to be told; no other is signalled.
pub proof fn new_batches_wait_for_their_tasks(
    s: Tables,
    batch: u128,
    n: i32,
    now: int,
    i: int,
    k: int,
)
    requires
        0 <= i < crate::handlers::create::closed(s, batch, n, now).outbox.len(),
        0 <= k < s.batches.len(),
    ensures
        ({
            let f = crate::handlers::create::closed(s, batch, n, now);
            let r = f.outbox[i];
            &&& f.tasks == s.tasks && f.links == s.links && f.actions == s.actions && f.slots
                == s.slots
            &&& f.batches.len() == s.batches.len()
            &&& f.batches[k] == if s.batches[k].id == batch {
                Batch { remaining: n, ..s.batches[k] }
            } else {
                s.batches[k]
            }
            &&& i < s.outbox.len() ==> r == s.outbox[i]
            &&& i >= s.outbox.len() ==> n == 0 && just_queued(r, now) && tells_completion(r, batch)
            &&& n == 0 && s.batches[k].id == batch && !(
            s.batches[k].on_complete matches OnComplete::Actions(v) && v@.len() == 0) ==> queued(
                f.outbox,
                batch_key(batch),
            ) || recorded(f.ledger, batch_key(batch))
        }),
{
    let f = crate::handlers::create::closed(s, batch, n, now);
    lemma_signalled(s.outbox, s.ledger, s.batches, registered_batch(batch), now);
    assert(f.batches[k] == with_remaining(batch, n)(s.batches[k]));
}

/// The end of an execution is noted as what it was, on the rows of its key alone.
pub proof fn executions_end_as_they_did(r: LedgerRow, key: Seq<char>, succeeded: bool, now: int)
    ensures
        completed_row(key, succeeded, now)(r) == if r.key == key {
            LedgerRow {
                status: if succeeded {
                    WebhookExecutionStatus::Success
                } else {
                    WebhookExecutionStatus::Failure
                },
                updated_at: now,
                ..r
            }
        } else {
            r
        },
{
}

/// Every queued row counts as due or as waiting, by its own time. No due row is older
/// than the age that is reported, and one is that old, where there is any.
pub proof fn backlogs_count_every_row(outbox: Seq<OutboxRow>, now: int, age: int)
    requires
        oldest_age(outbox, now, age),
    ensures
        count(outbox, mature(now)) + count(outbox, immature(now)) == outbox.len(),
        forall|i: int|
            0 <= i < outbox.len() ==> (mature(now)(#[trigger] outbox[i]) <==> outbox[i].next_attempt_at
                <= now),
        forall|i: int|
            0 <= i < outbox.len() && (#[trigger] outbox[i]).next_attempt_at <= now ==> now
                - outbox[i].created_at <= age,
        age != 0 ==> exists|i: int|
            0 <= i < outbox.len() && (#[trigger] outbox[i]).next_attempt_at <= now && age == now
                - outbox[i].created_at,
{
    lemma_all_counted(outbox, now);
    assert forall|i: int|
        0 <= i < outbox.len() && (#[trigger] outbox[i]).next_attempt_at <= now implies now
        - outbox[i].created_at <= age by {
        assert(mature(now)(outbox[i]));
    }
}

proof fn lemma_all_counted(outbox: Seq<OutboxRow>, now: int)
    ensures
        count(outbox, mature(now)) + count(outbox, immature(now)) == outbox.len(),
    decreases outbox.len(),
{
    if outbox.len() > 0 {
        lemma_all_counted(outbox.drop_last(), now);
    }
}

proof fn lemma_all_told(
    outbox: Seq<OutboxRow>,
    ledger: Seq<LedgerRow>,
    tasks: Seq<u128>,
    now: int,
    k: int,
)
    requires
        0 <= k < tasks.len(),
    ensures
        ({
            let key = idem_key(tasks[k], TriggerKind::Cancel, TriggerCondition::Success);
            queued(with_cancels(outbox, ledger, tasks, now), key) || recorded(ledger, key)
        }),
    decreases tasks.len(),
{
    let key = idem_key(tasks[k], TriggerKind::Cancel, TriggerCondition::Success);
    let b = with_cancels(outbox, ledger, tasks.drop_last(), now);
    let c = with_cancels(outbox, ledger, tasks, now);
    if k < tasks.len() - 1 {
        assert(tasks.drop_last()[k] == tasks[k]);
        lemma_all_told(outbox, ledger, tasks.drop_last(), now, k);
        if queued(b, key) {
            let i = choose|i: int| 0 <= i < b.len() && (#[trigger] b[i]).key == key;
            assert(c[i] == b[i]);
        }
    } else if !queued(b, key) && !recorded(ledger, key) {
        assert(c[b.len() as int] == cancel_row(tasks[k], now));
    }
}

/// When a batch is stopped, the cancellation of every task of it that was in a worker's
/// hands is on its way, and so is its completion, if it wants to be told.
pub proof fn stopped_batches_tell_every_worker(s: Tables, batch: u128, now: int, t: int, k: int)
    requires
        0 <= t < s.tasks.len(),
        0 <= k < s.batches.len(),
    ensures
        ({
            let f = after_stop(s, batch, now);
            let key = idem_key(s.tasks[t].id, TriggerKind::Cancel, TriggerCondition::Success);
            &&& s.tasks[t].batch_id == Some(batch) && (s.tasks[t].status == StatusKind::Running
                || s.tasks[t].status == StatusKind::Claimed) ==> queued(f.outbox, key) || recorded(
                f.ledger,
                key,
            )
            &&& s.batches[k].id == batch && !(s.batches[k].on_complete matches OnComplete::Actions(
                v,
            ) && v@.len() == 0) ==> queued(f.outbox, batch_key(batch)) || recorded(
                f.ledger,
                batch_key(batch),
            )
        }),
{
    let ids = stop_notified(s.tasks, batch);
    let told = with_cancels(s.outbox, s.ledger, ids, now);
    let f = after_stop(s, batch, now);
    let p = registered_batch(batch);
    lemma_signalled(told, s.ledger, s.batches, p, now);
    if s.batches[k].id == batch {
        assert(s.batches[k].on_complete.registered() ==> p(s.batches[k]));
    }
    if s.tasks[t].batch_id == Some(batch) && (s.tasks[t].status == StatusKind::Running
        || s.tasks[t].status == StatusKind::Claimed) {
        let id = s.tasks[t].id;
        let key = idem_key(id, TriggerKind::Cancel, TriggerCondition::Success);
        let running = crate::db::task_lifecycle::batch_tasks_in(batch, StatusKind::Running);
        let claimed = crate::db::task_lifecycle::batch_tasks_in(batch, StatusKind::Claimed);
        let a = ids_where(s.tasks, running);
        let b = ids_where(s.tasks, claimed);
        lemma_ids_where_has(s.tasks, running, id);
        lemma_ids_where_has(s.tasks, claimed, id);
        let n = if s.tasks[t].status == StatusKind::Running {
            assert(running(s.tasks[t]));
            let n = choose|n: int| 0 <= n < a.len() && a[n] == id;
            assert(ids[n] == id);
            n
        } else {
            assert(claimed(s.tasks[t]));
            let n = choose|n: int| 0 <= n < b.len() && b[n] == id;
            assert(ids[a.len() + n] == id);
            a.len() + n
        };
        lemma_all_told(s.outbox, s.ledger, ids, now, n);
        if queued(told, key) {
            let i = choose|i: int| 0 <= i < told.len() && (#[trigger] told[i]).key == key;
            assert(f.outbox[i] == told[i]);
        }
    }
}

/// The completions among new events.
pub open spec fn completions(outbox: Seq<OutboxRow>, from: int) -> nat {
    count(outbox.skip(from), |r: OutboxRow| r.trigger == TriggerKind::BatchComplete)
}

proof fn lemma_completions(
    outbox: Seq<OutboxRow>,
    from: int,
    to: int,
    p: spec_fn(OutboxRow) -> bool,
)
    requires
        0 <= from <= to <= outbox.len(),
        p == |r: OutboxRow| r.trigger == TriggerKind::BatchComplete,
        forall|i: int| from <= i < to ==> !p(#[trigger] outbox[i]),
        forall|i: int| to <= i < outbox.len() ==> p(#[trigger] outbox[i]),
    ensures
        count(outbox.skip(from), p) == outbox.len() - to,
    decreases outbox.len(),
{
    let s = outbox.skip(from);
    if s.len() > 0 {
        let init = outbox.drop_last();
        let n = outbox.len() - 1;
        assert(s.drop_last() =~= init.skip(from));
        assert(s.last() == outbox[n]);
        assert forall|i: int| 0 <= i < init.len() implies init[i] == outbox[i] by {}
        if to == outbox.len() {
            assert(!p(outbox[n]));
            assert forall|i: int| from <= i < n implies !p(#[trigger] init[i]) by {
                assert(!p(outbox[i]));
            }
            lemma_completions(init, from, n, p);
        } else {
            assert(p(outbox[n]));
            assert forall|i: int| from <= i < to implies !p(#[trigger] init[i]) by {
                assert(!p(outbox[i]));
            }
            assert forall|i: int| to <= i < init.len() implies p(#[trigger] init[i]) by {
                assert(p(outbox[i]));
            }
            lemma_completions(init, from, to, p);
        }
    }
}

/// What the end of a task reports is what it did: the tasks that failed, became free or
/// were canceled are those whose status changed so, and as many batches completed as were
/// told of newly.
pub proof fn reports_say_what_happened(
    s: Tables,
    id: u128,
    status: StatusKind,
    dead_end_enabled: bool,
    notice: Notice,
    now: int,
    r: Finish,
    i: int,
)
    requires
        unique_ids(s.tasks),
        0 <= i < s.tasks.len(),
        reported(s, id, status, dead_end_enabled, notice, now, r),
    ensures
        ({
            let f = finished(s, id, status, dead_end_enabled, notice, now);
            let mid = propagation(s.tasks, s.links, id, status, now).rows;
            let t = s.tasks[i];
            &&& r.cascade_failed@.contains(t.id) <==> t.status != StatusKind::Failure
                && mid[i].status == StatusKind::Failure
            &&& r.unblocked@.contains(t.id) <==> t.status != StatusKind::Pending && mid[i].status
                == StatusKind::Pending
            &&& !dead_end_enabled ==> r.canceled_ancestors@.len() == 0
            &&& (exists|k: int|
                0 <= k < r.canceled_ancestors@.len() && (#[trigger] r.canceled_ancestors@[k]).id
                    == t.id) <==> mid[i].status != StatusKind::Canceled && f.tasks[i].status
                == StatusKind::Canceled
            &&& r.batches_completed == completions(f.outbox, s.outbox.len() as int)
        }),
{
    let f = finished(s, id, status, dead_end_enabled, notice, now);
    let spread = propagation(s.tasks, s.links, id, status, now);
    let from = seq![id] + spread.failed;
    let top = dead_ends(spread, s.links, id, dead_end_enabled, now);
    let ids = terminal_ids(id, spread.failed, top.canceled);
    propagation_frame(s.tasks, s.links, id, status, now);
    climb_frame(spread.rows, s.links, from, now);
    assert(spread.rows[i].id == s.tasks[i].id);
    if dead_end_enabled {
        assert(climb_step(spread.rows[i], climb(spread.rows, s.links, from, now).rows[i]));
        let gone = top.canceled.map_values(|a: CanceledAncestor| a.id);
        let x = spread.rows[i].id;
        if gone.contains(x) {
            let k = choose|k: int| 0 <= k < gone.len() && gone[k] == x;
            assert(top.canceled[k].id == x);
        }
        if exists|k: int| 0 <= k < top.canceled.len() && (#[trigger] top.canceled[k]).id == x {
            let k = choose|k: int|
                0 <= k < top.canceled.len() && (#[trigger] top.canceled[k]).id == x;
            assert(gone[k] == x);
        }
    }
    let a = s.outbox;
    let b = noticed(s, id, status, notice, now);
    let c = with_ends(b, s.ledger, spread.failed, StatusKind::Failure, now);
    let d = told(s, id, status, dead_end_enabled, notice, now);
    lemma_with_ends(b, s.ledger, spread.failed, StatusKind::Failure, now);
    lemma_with_ancestors(c, s.ledger, top.canceled, now);
    let p = completes(f.tasks, ids);
    lemma_signalled(d, s.ledger, s.batches, p, now);
    let q = |x: OutboxRow| x.trigger == TriggerKind::BatchComplete;
    assert forall|k: int| a.len() <= k < d.len() implies !q(#[trigger] f.outbox[k]) by {
        assert(f.outbox[k] == d[k]);
        if k < c.len() {
            assert(d[k] == c[k]);
            if k < b.len() {
                assert(c[k] == b[k]);
            }
        }
    }
    assert forall|k: int| d.len() <= k < f.outbox.len() implies q(#[trigger] f.outbox[k]) by {}
    lemma_completions(f.outbox, a.len() as int, d.len() as int, q);
}

} // verus!
