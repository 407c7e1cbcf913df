//! Which notifications go out, and when.

use crate::action::idem_key;
use crate::db::webhook_execution::{completes, signalled};
use crate::db::webhook_outbox::{
    age_key, batch_row, claimable, deliverable, enqueued, leased, lemma_positions, positions,
    queued, recorded, start_in_flight,
};
use crate::models::{Batch, LedgerRow, OutboxRow, StatusKind, TriggerCondition, TriggerKind};
use crate::order::{order, order_sorts};
use crate::store::Tables;
use crate::workers::finish::{dead_ends, finished, noticed, terminal_ids, told, Notice};
use crate::workers::propagation::{propagation, CanceledAncestor};
use crate::workers::webhooks::{cancel_row, end_condition, end_row, with_ancestors, with_ends};
use vstd::prelude::*;

verus! {

/// An event is on its way: it is queued, or on record already.
pub open spec fn on_its_way(outbox: Seq<OutboxRow>, ledger: Seq<LedgerRow>, key: Seq<char>) -> bool {
    queued(outbox, key) || recorded(ledger, key)
}

/// The key of a task's failed end.
pub open spec fn failed_end(task: u128) -> Seq<char> {
    idem_key(task, TriggerKind::End, TriggerCondition::Failure)
}

/// The key of a task's cancellation.
pub open spec fn cancellation(task: u128) -> Seq<char> {
    idem_key(task, TriggerKind::Cancel, TriggerCondition::Success)
}

/// Every row of `a` is still in `b`, at its place.
spec fn extends(a: Seq<OutboxRow>, b: Seq<OutboxRow>) -> bool {
    a.len() <= b.len() && b.take(a.len() as int) =~= a
}

proof fn lemma_extends_keeps(a: Seq<OutboxRow>, b: Seq<OutboxRow>, ledger: Seq<LedgerRow>)
    requires
        extends(a, b),
    ensures
        forall|key: Seq<char>|
            on_its_way(a, ledger, key) ==> #[trigger] on_its_way(b, ledger, key),
{
    assert forall|key: Seq<char>| on_its_way(a, ledger, key) implies #[trigger] on_its_way(
        b,
        ledger,
        key,
    ) by {
        if queued(a, key) {
            let i = choose|i: int| 0 <= i < a.len() && (#[trigger] a[i]).key == key;
            assert(b.take(a.len() as int)[i] == b[i]);
            assert(b[i].key == key);
        }
    }
}

proof fn lemma_enqueued(outbox: Seq<OutboxRow>, ledger: Seq<LedgerRow>, row: OutboxRow)
    ensures
        extends(outbox, enqueued(outbox, ledger, row)),
        on_its_way(enqueued(outbox, ledger, row), ledger, row.key),
{
    let after = enqueued(outbox, ledger, row);
    if after != outbox {
        assert(after[outbox.len() as int].key == row.key);
    }
}

proof fn lemma_ends(
    outbox: Seq<OutboxRow>,
    ledger: Seq<LedgerRow>,
    tasks: Seq<u128>,
    now: int,
)
    ensures
        extends(outbox, with_ends(outbox, ledger, tasks, StatusKind::Failure, now)),
        forall|k: int|
            0 <= k < tasks.len() ==> on_its_way(
                with_ends(outbox, ledger, tasks, StatusKind::Failure, now),
                ledger,
                failed_end(#[trigger] tasks[k]),
            ),
    decreases tasks.len(),
{
    if tasks.len() > 0 {
        let init = tasks.drop_last();
        let before = with_ends(outbox, ledger, init, StatusKind::Failure, now);
        let after = with_ends(outbox, ledger, tasks, StatusKind::Failure, now);
        lemma_ends(outbox, ledger, init, now);
        lemma_enqueued(before, ledger, end_row(tasks.last(), StatusKind::Failure, now));
        lemma_extends_keeps(before, after, ledger);
        assert(after.take(outbox.len() as int) =~= before.take(outbox.len() as int));
        assert forall|k: int| 0 <= k < tasks.len() implies on_its_way(
            after,
            ledger,
            failed_end(#[trigger] tasks[k]),
        ) by {
            if k < init.len() {
                assert(init[k] == tasks[k]);
            }
        }
    }
}

proof fn lemma_ancestors(
    outbox: Seq<OutboxRow>,
    ledger: Seq<LedgerRow>,
    ancestors: Seq<CanceledAncestor>,
    now: int,
)
    ensures
        extends(outbox, with_ancestors(outbox, ledger, ancestors, now)),
        forall|k: int|
            0 <= k < ancestors.len() ==> on_its_way(
                with_ancestors(outbox, ledger, ancestors, now),
                ledger,
                failed_end((#[trigger] ancestors[k]).id),
            ) && (ancestors[k].was_active ==> on_its_way(
                with_ancestors(outbox, ledger, ancestors, now),
                ledger,
                cancellation(ancestors[k].id),
            )),
    decreases ancestors.len(),
{
    if ancestors.len() > 0 {
        let init = ancestors.drop_last();
        let a = ancestors.last();
        let before = with_ancestors(outbox, ledger, init, now);
        let after = with_ancestors(outbox, ledger, ancestors, now);
        let mid = if a.was_active {
            enqueued(before, ledger, cancel_row(a.id, now))
        } else {
            before
        };
        lemma_ancestors(outbox, ledger, init, now);
        lemma_enqueued(before, ledger, cancel_row(a.id, now));
        lemma_enqueued(mid, ledger, end_row(a.id, StatusKind::Failure, now));
        lemma_extends_keeps(before, mid, ledger);
        lemma_extends_keeps(mid, after, ledger);
        assert(after.take(outbox.len() as int) =~= mid.take(outbox.len() as int));
        assert(mid.take(outbox.len() as int) =~= before.take(outbox.len() as int));
        assert forall|k: int| 0 <= k < ancestors.len() implies on_its_way(
            after,
            ledger,
            failed_end((#[trigger] ancestors[k]).id),
        ) && (ancestors[k].was_active ==> on_its_way(
            after,
            ledger,
            cancellation(ancestors[k].id),
        )) by {
            if k < init.len() {
                assert(init[k] == ancestors[k]);
                assert(on_its_way(before, ledger, failed_end(init[k].id)));
                assert(on_its_way(mid, ledger, failed_end(init[k].id)));
                if init[k].was_active {
                    assert(on_its_way(before, ledger, cancellation(init[k].id)));
                    assert(on_its_way(mid, ledger, cancellation(init[k].id)));
                }
            } else if a.was_active {
                assert(on_its_way(mid, ledger, cancellation(a.id)));
            }
        }
    }
}

proof fn lemma_signals(
    outbox: Seq<OutboxRow>,
    ledger: Seq<LedgerRow>,
    batches: Seq<Batch>,
    p: spec_fn(Batch) -> bool,
    now: int,
)
    ensures
        extends(outbox, signalled(outbox, ledger, batches, p, now)),
    decreases batches.len(),
{
    if batches.len() > 0 {
        let before = signalled(outbox, ledger, batches.drop_last(), p, now);
        let after = signalled(outbox, ledger, batches, p, now);
        lemma_signals(outbox, ledger, batches.drop_last(), p, now);
        lemma_enqueued(
            before,
            ledger,
            batch_row(batches.last().id, crate::action::batch_key(batches.last().id), now),
        );
        assert(after.take(outbox.len() as int) =~= before.take(outbox.len() as int));
    }
}

/// Everyone concerned hears of the end of a task: the task itself as its notice
/// says, every task that failed with it, and every ancestor that was canceled, which
/// also hears of its cancellation where it was active. Nothing that was queued is
/// dropped.
pub proof fn ends_are_notified(
    s: Tables,
    id: u128,
    status: StatusKind,
    dead_end_enabled: bool,
    notice: Notice,
    now: int,
)
    ensures
        ({
            let f = finished(s, id, status, dead_end_enabled, notice, now);
            let spread = propagation(s.tasks, s.links, id, status, now);
            let top = dead_ends(spread, s.links, id, dead_end_enabled, now);
            &&& notice == Notice::End ==> on_its_way(
                f.outbox,
                f.ledger,
                idem_key(id, TriggerKind::End, end_condition(status)),
            )
            &&& notice == Notice::Cancel ==> on_its_way(f.outbox, f.ledger, cancellation(id))
            &&& forall|k: int|
                0 <= k < spread.failed.len() ==> on_its_way(
                    f.outbox,
                    f.ledger,
                    failed_end(#[trigger] spread.failed[k]),
                )
            &&& forall|k: int|
                0 <= k < top.canceled.len() ==> on_its_way(
                    f.outbox,
                    f.ledger,
                    failed_end((#[trigger] top.canceled[k]).id),
                ) && (top.canceled[k].was_active ==> on_its_way(
                    f.outbox,
                    f.ledger,
                    cancellation(top.canceled[k].id),
                ))
            &&& forall|key: Seq<char>|
                on_its_way(s.outbox, s.ledger, key) ==> #[trigger] on_its_way(
                    f.outbox,
                    f.ledger,
                    key,
                )
        }),
{
    let f = finished(s, id, status, dead_end_enabled, notice, now);
    let spread = propagation(s.tasks, s.links, id, status, now);
    let top = dead_ends(spread, s.links, id, dead_end_enabled, now);
    let ids = terminal_ids(id, spread.failed, top.canceled);
    let own = noticed(s, id, status, notice, now);
    let ended = with_ends(own, s.ledger, spread.failed, StatusKind::Failure, now);
    let all = told(s, id, status, dead_end_enabled, notice, now);
    lemma_enqueued(s.outbox, s.ledger, end_row(id, status, now));
    lemma_enqueued(s.outbox, s.ledger, cancel_row(id, now));
    lemma_ends(own, s.ledger, spread.failed, now);
    lemma_ancestors(ended, s.ledger, top.canceled, now);
    lemma_signals(all, s.ledger, s.batches, completes(f.tasks, ids), now);
    lemma_extends_keeps(s.outbox, own, s.ledger);
    lemma_extends_keeps(own, ended, s.ledger);
    lemma_extends_keeps(ended, all, s.ledger);
    lemma_extends_keeps(all, f.outbox, s.ledger);
    assert forall|key: Seq<char>| on_its_way(s.outbox, s.ledger, key) implies #[trigger] on_its_way(
        f.outbox,
        f.ledger,
        key,
    ) by {
        assert(on_its_way(own, s.ledger, key));
        assert(on_its_way(ended, s.ledger, key));
        assert(on_its_way(all, s.ledger, key));
    }
    if notice == Notice::End {
        let key = idem_key(id, TriggerKind::End, end_condition(status));
        assert(on_its_way(own, s.ledger, key));
        assert(on_its_way(ended, s.ledger, key));
        assert(on_its_way(all, s.ledger, key));
    }
    if notice == Notice::Cancel {
        let key = cancellation(id);
        assert(on_its_way(own, s.ledger, key));
        assert(on_its_way(ended, s.ledger, key));
        assert(on_its_way(all, s.ledger, key));
    }
    assert forall|k: int| 0 <= k < spread.failed.len() implies on_its_way(
        f.outbox,
        f.ledger,
        failed_end(#[trigger] spread.failed[k]),
    ) by {
        let key = failed_end(spread.failed[k]);
        assert(on_its_way(ended, s.ledger, key));
        assert(on_its_way(all, s.ledger, key));
    }
    assert forall|k: int| 0 <= k < top.canceled.len() implies on_its_way(
        f.outbox,
        f.ledger,
        failed_end((#[trigger] top.canceled[k]).id),
    ) && (top.canceled[k].was_active ==> on_its_way(
        f.outbox,
        f.ledger,
        cancellation(top.canceled[k].id),
    )) by {
        assert(on_its_way(all, s.ledger, failed_end(top.canceled[k].id)));
        if top.canceled[k].was_active {
            assert(on_its_way(all, s.ledger, cancellation(top.canceled[k].id)));
        }
    }
}

/// A claim takes only rows that are due and whose task is not just being started: no
/// end overtakes its start.
pub proof fn claimed_rows_are_deliverable(
    outbox: Seq<OutboxRow>,
    ledger: Seq<LedgerRow>,
    limit: int,
    now: int,
    stale_secs: int,
    k: int,
)
    requires
        limit >= 0,
        0 <= k < claimable(outbox, ledger, limit, now, stale_secs).len(),
    ensures
        ({
            let i = claimable(outbox, ledger, limit, now, stale_secs)[k];
            &&& 0 <= i < outbox.len()
            &&& outbox[i].next_attempt_at <= now
            &&& !start_in_flight(ledger, outbox[i].task_id, now, stale_secs)
        }),
{
    let p = deliverable(ledger, now, stale_secs);
    let due = positions(outbox, p);
    let keys = due.map_values(|k: int| age_key(outbox[k]));
    lemma_positions(outbox, p);
    order_sorts(keys);
    let taken = claimable(outbox, ledger, limit, now, stale_secs);
    assert(taken[k] == due[order(keys)[k]]);
    assert(p(outbox[due[order(keys)[k]]]));
}

/// While a lease holds, nobody else claims its row.
pub proof fn lease_excludes_others(
    outbox: Seq<OutboxRow>,
    taken: Seq<int>,
    token: u128,
    lease_secs: int,
    now: int,
    ledger: Seq<LedgerRow>,
    limit: int,
    later: int,
    stale_secs: int,
    i: int,
)
    requires
        taken.contains(i),
        0 <= i < outbox.len(),
        limit >= 0,
        later < now + lease_secs * 1_000_000,
    ensures
        !claimable(leased(outbox, taken, token, now, lease_secs), ledger, limit, later, stale_secs)
            .contains(i),
{
    let after = leased(outbox, taken, token, now, lease_secs);
    let again = claimable(after, ledger, limit, later, stale_secs);
    if again.contains(i) {
        let k = choose|k: int| 0 <= k < again.len() && again[k] == i;
        claimed_rows_are_deliverable(after, ledger, limit, later, stale_secs, k);
    }
}

} // verus!
