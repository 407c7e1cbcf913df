//! The consequences of a task reaching a terminal state, all in its transaction.

use crate::db::task_crud::{
    charges_ok, release_slots_for_tasks, released_row, released_slot,
};
use crate::db::webhook_execution::{
    completes, decrement_batch_remaining_for_tasks, decremented, signalled,
};
use crate::db::webhook_outbox::enqueued;
use crate::models::{Link, OutboxRow, StatusKind};
use crate::store::{Store, Tables};
use crate::workers::graph_laws::{
    climb_frame, climb_step, propagation_frame, propagation_step,
};
use crate::workers::propagation::{
    cancel_dead_end_ancestors, climb, propagate_to_children, propagation, CanceledAncestor, Climb,
    Spread,
};
use crate::workers::webhooks::{
    cancel_row, end_row, enqueue_cancel_outbox, enqueue_end_outbox, enqueue_ends,
    enqueue_outbox_for_canceled_ancestors, with_ancestors, with_ends,
};
use vstd::prelude::*;

verus! {

/// The notification that a task itself gets for reaching a terminal state.
#[derive(Clone, Copy, Debug, PartialEq, Eq, Structural)]
pub enum Notice {
    /// Its end webhook.
    End,
    /// Its cancel webhook.
    Cancel,
    /// None: the task was canceled before it was handed to a worker.
    Silent,
}

/// What followed from a task reaching a terminal state.
#[derive(Debug)]
pub struct Finish {
    /// Tasks failed by the cascade.
    pub cascade_failed: Vec<u128>,
    /// Tasks moved from `Waiting` to `Pending`.
    pub unblocked: Vec<u128>,
    /// Ancestors canceled by dead-end detection.
    pub canceled_ancestors: Vec<CanceledAncestor>,
    /// Batch completions enqueued.
    pub batches_completed: usize,
}

/// The dead-end cancellation that follows a propagation, where it is enabled.
pub open spec fn dead_ends(
    spread: Spread,
    links: Seq<Link>,
    id: u128,
    dead_end_enabled: bool,
    now: int,
) -> Climb {
    if dead_end_enabled {
        climb(spread.rows, links, seq![id] + spread.failed, now)
    } else {
        Climb { rows: spread.rows, canceled: Seq::empty() }
    }
}

/// Every task that became terminal.
pub open spec fn terminal_ids(id: u128, failed: Seq<u128>, canceled: Seq<CanceledAncestor>) -> Seq<
    u128,
> {
    seq![id] + failed + canceled.map_values(|a: CanceledAncestor| a.id)
}

/// The queue with the task's own notification.
pub open spec fn noticed(s: Tables, id: u128, status: StatusKind, notice: Notice, now: int) -> Seq<
    OutboxRow,
> {
    match notice {
        Notice::End => enqueued(s.outbox, s.ledger, end_row(id, status, now)),
        Notice::Cancel => enqueued(s.outbox, s.ledger, cancel_row(id, now)),
        Notice::Silent => s.outbox,
    }
}

/// The queue with every task's notification: the task's own, a failed end for
/// each task that failed with it, and those of the canceled ancestors.
pub open spec fn told(
    s: Tables,
    id: u128,
    status: StatusKind,
    dead_end_enabled: bool,
    notice: Notice,
    now: int,
) -> Seq<OutboxRow> {
    let spread = propagation(s.tasks, s.links, id, status, now);
    with_ancestors(
        with_ends(
            noticed(s, id, status, notice, now),
            s.ledger,
            spread.failed,
            StatusKind::Failure,
            now,
        ),
        s.ledger,
        dead_ends(spread, s.links, id, dead_end_enabled, now).canceled,
        now,
    )
}

/// The tables after the task `id` moved to the terminal `status`: the status is
/// propagated, dead ends are canceled, every notification is enqueued, and the
/// tasks that became terminal release their slots and count off their batches.
pub open spec fn finished(
    s: Tables,
    id: u128,
    status: StatusKind,
    dead_end_enabled: bool,
    notice: Notice,
    now: int,
) -> Tables {
    let spread = propagation(s.tasks, s.links, id, status, now);
    let top = dead_ends(spread, s.links, id, dead_end_enabled, now);
    let ids = terminal_ids(id, spread.failed, top.canceled);
    let told = told(s, id, status, dead_end_enabled, notice, now);
    let tasks = top.rows.map_values(released_row(ids));
    Tables {
        tasks,
        slots: s.slots.map_values(released_slot(top.rows, ids)),
        batches: s.batches.map_values(decremented(tasks, ids)),
        outbox: signalled(told, s.ledger, s.batches, completes(tasks, ids), now),
        ..s
    }
}

/// Propagation and dead-end cancellation leave the charges alone.
proof fn lemma_charges_kept(
    s: Tables,
    id: u128,
    status: StatusKind,
    dead_end_enabled: bool,
    now: int,
)
    requires
        crate::workers::propagation::unique_ids(s.tasks),
        charges_ok(s.tasks),
    ensures
        charges_ok(
            dead_ends(
                propagation(s.tasks, s.links, id, status, now),
                s.links,
                id,
                dead_end_enabled,
                now,
            ).rows,
        ),
{
    let spread = propagation(s.tasks, s.links, id, status, now);
    propagation_frame(s.tasks, s.links, id, status, now);
    climb_frame(spread.rows, s.links, seq![id] + spread.failed, now);
    let top = dead_ends(spread, s.links, id, dead_end_enabled, now);
    assert forall|i: int|
        0 <= i < top.rows.len() && (
        #[trigger] top.rows[i]).capacity_charge is Some implies top.rows[i].capacity_charge->0
        >= 0 by {
        assert(propagation_step(s.tasks[i], spread.rows[i]));
        assert(climb_step(spread.rows[i], climb(
            spread.rows,
            s.links,
            seq![id] + spread.failed,
            now,
        ).rows[i]));
    }
}

/// `r` says what followed from the task `id` having moved to the terminal `status`:
/// which tasks failed with it, which became unblocked, which were canceled as dead
/// ends, and how many batches this completed, each of which is notified.
pub open spec fn reported(
    s: Tables,
    id: u128,
    status: StatusKind,
    dead_end_enabled: bool,
    notice: Notice,
    now: int,
    r: Finish,
) -> bool {
    let spread = propagation(s.tasks, s.links, id, status, now);
    let top = dead_ends(spread, s.links, id, dead_end_enabled, now);
    &&& r.cascade_failed@ == spread.failed
    &&& r.unblocked@ == spread.unblocked
    &&& r.canceled_ancestors@ == top.canceled
    &&& r.batches_completed == finished(s, id, status, dead_end_enabled, notice, now).outbox.len()
        - told(s, id, status, dead_end_enabled, notice, now).len()
}

/// Carries out the consequences of the task `id` having moved to the terminal
/// `status`.
pub fn finish_task(
    store: &mut Store,
    id: u128,
    status: StatusKind,
    dead_end_enabled: bool,
    notice: Notice,
    now: i64,
) -> (r: Finish)
    requires
        old(store)@.wf(),
    ensures
        final(store)@ == finished(
            old(store)@,
            id,
            status,
            dead_end_enabled,
            notice,
            now as int,
        ),
        reported(old(store)@, id, status, dead_end_enabled, notice, now as int, r),
{
    let ghost s = store@;
    proof {
        lemma_charges_kept(s, id, status, dead_end_enabled, now as int);
    }
    let (cascade_failed, unblocked) = propagate_to_children(
        &mut store.tasks,
        &store.links,
        id,
        status,
        now,
    );
    let mut ids: Vec<u128> = Vec::new();
    ids.push(id);
    let mut i: usize = 0;
    while i < cascade_failed.len()
        invariant
            i <= cascade_failed.len(),
            ids@ =~= seq![id] + cascade_failed@.take(i as int),
        decreases cascade_failed.len() - i,
    {
        ids.push(cascade_failed[i]);
        i += 1;
    }
    assert(ids@ =~= seq![id] + cascade_failed@);
    let canceled_ancestors: Vec<CanceledAncestor> = if dead_end_enabled {
        cancel_dead_end_ancestors(&mut store.tasks, &store.links, &ids, now)
    } else {
        Vec::new()
    };
    match notice {
        Notice::End => enqueue_end_outbox(&mut store.outbox, &store.ledger, id, status, now),
        Notice::Cancel => enqueue_cancel_outbox(&mut store.outbox, &store.ledger, id, now),
        Notice::Silent => {},
    }
    enqueue_ends(&mut store.outbox, &store.ledger, &cascade_failed, StatusKind::Failure, now);
    enqueue_outbox_for_canceled_ancestors(
        &mut store.outbox,
        &store.ledger,
        &canceled_ancestors,
        now,
    );
    let ghost getid = |a: CanceledAncestor| a.id;
    let ghost some = ids@;
    let mut i: usize = 0;
    while i < canceled_ancestors.len()
        invariant
            i <= canceled_ancestors.len(),
            getid == (|a: CanceledAncestor| a.id),
            ids@ =~= some + canceled_ancestors@.map_values(getid).take(i as int),
        decreases canceled_ancestors.len() - i,
    {
        ids.push(canceled_ancestors[i].id);
        i += 1;
    }
    proof {
        assert(ids@ =~= terminal_ids(id, cascade_failed@, canceled_ancestors@));
    }
    assert(store@.outbox == told(s, id, status, dead_end_enabled, notice, now as int));
    assert(store@.outbox.len() == store.outbox@.len());
    release_slots_for_tasks(&mut store.tasks, &mut store.slots, &ids);
    let batches_completed: usize = decrement_batch_remaining_for_tasks(
        &mut store.batches,
        &mut store.outbox,
        &store.ledger,
        &store.tasks,
        &ids,
        now,
    );
    Finish { cascade_failed, unblocked, canceled_ancestors, batches_completed }
}

} // verus!
