//! Every transition keeps the tables consistent.

use crate::action::batch_key;
use crate::db::insert_laws::graph_ok;
use crate::db::slot_laws::{claim_keeps_slots, demand, release_keeps_slots, usage};
use crate::db::task_crud::{
    charge, claim_outcome_with, claim_row, contribution, has_status, released_row, released_slot,
    running_row, slots_of, ClaimResult, SlotAsk,
};
use crate::db::task_lifecycle::{
    after_stop, after_update, batch_live, failed_row, is_active_task, is_task, paused_row,
    resumed_row, stop_notified, stopped_row, update_result, updated_row, UpdateTaskResult,
};
use crate::db::task_query::{requeued_row, stale_claim, timeout_row};
use crate::db::webhook_execution::{completes, registered_batch, signalled, with_remaining};
use crate::db::webhook_outbox::{batch_row, enqueued, queued, recorded};
use crate::dtos::UpdateView;
use crate::models::{Batch, LedgerRow, OutboxRow, SlotRow, StatusKind, TaskRow};
use crate::rule::keyed;
use crate::store::Tables;
use crate::tally::{
    count, ids_where, lemma_count_less, lemma_count_same, lemma_count_zero, lemma_ids_where_has,
    lemma_sum_same,
};
use crate::workers::cancel::cancel_task_row;
use crate::workers::finish::{dead_ends, finished, terminal_ids, told, Notice};
use crate::workers::finish_laws::{
    consistent, ended_with, ends, finish_keeps_consistent, finish_keeps_graph, graph_wf, lemma_cancels_disjoint, lemma_ended,
    lemma_signals_disjoint, live_in, remaining_ok,
};
use crate::workers::propagation::{
    live, propagation, row_deps_ok, unique_ids, waits_for, waits_for_success,
};
use crate::workers::webhooks::with_cancels;
use vstd::prelude::*;

verus! {

// ---------------------------------------------------------------------------
// Transitions that end a task
// ---------------------------------------------------------------------------

/// An update of a task keeps the tables consistent.
pub proof fn update_keeps_consistent(
    s: Tables,
    id: u128,
    dto: UpdateView,
    dead_end_enabled: bool,
    now: int,
)
    requires
        consistent(s),
        dto.status is Some ==> dto.status->0.terminal(),
    ensures
        consistent(after_update(s, id, dto, dead_end_enabled, now)),
{
    if is_active_task(s.tasks, id) {
        let step = updated_row(id, dto, now);
        let t = Tables { tasks: s.tasks.map_values(step), ..s };
        let w = choose|w: int|
            0 <= w < s.tasks.len() && #[trigger] s.tasks[w].id == id
                && s.tasks[w].status.active();
        assert forall|i: int| 0 <= i < s.tasks.len() && (
        #[trigger] s.tasks[i]).id == id implies i == w by {
            assert(s.tasks[i].id == s.tasks[w].id);
        }
        match dto.status {
            Some(status) => {
                assert(ends(s, t, id, status));
                finish_keeps_consistent(
                    s,
                    t,
                    id,
                    status,
                    dead_end_enabled,
                    Notice::End,
                    now,
                );
            },
            None => {
                lemma_live_steps(s, t);
            },
        }
    }
}

/// Reporting the end of a task is safe to retry: once an update ended it, any further
/// update changes nothing. The same status is answered as held already, another as a
/// conflict with the status held.
pub proof fn updates_are_retry_safe(
    s: Tables,
    id: u128,
    dto: UpdateView,
    dead_end_enabled: bool,
    now: int,
    again: UpdateView,
    later: int,
    r: UpdateTaskResult,
)
    requires
        unique_ids(s.tasks),
        is_active_task(s.tasks, id),
        dto.status is Some,
        dto.status->0.terminal(),
        update_result(
            after_update(s, id, dto, dead_end_enabled, now).tasks,
            id,
            again.status,
            r,
        ),
    ensures
        ({
            let t = after_update(s, id, dto, dead_end_enabled, now);
            &&& after_update(t, id, again, dead_end_enabled, later) == t
            &&& r == if again.status == dto.status {
                UpdateTaskResult::AlreadyInRequestedState
            } else {
                UpdateTaskResult::Conflict(dto.status->0)
            }
        }),
{
    let status = dto.status->0;
    let b = Tables { tasks: s.tasks.map_values(updated_row(id, dto, now)), ..s };
    let t = after_update(s, id, dto, dead_end_enabled, now);
    let w = choose|w: int|
        0 <= w < s.tasks.len() && #[trigger] s.tasks[w].id == id && s.tasks[w].status.active();
    assert forall|i: int| 0 <= i < s.tasks.len() && (
    #[trigger] s.tasks[i]).id == id implies i == w by {
        assert(s.tasks[i].id == s.tasks[w].id);
    }
    assert(ends(s, b, id, status));
    lemma_ended(s, b, id, status, dead_end_enabled, now);
    let spread = propagation(b.tasks, b.links, id, status, now);
    let top = dead_ends(spread, b.links, id, dead_end_enabled, now);
    assert forall|i: int| 0 <= i < t.tasks.len() && (
    #[trigger] t.tasks[i]).id == id implies t.tasks[i].status == status by {
        assert(s.tasks[i].id == top.rows[i].id);
        assert(b.tasks[i].status == status);
    }
    assert(t.tasks[w].id == id);
}

/// Failing an active task keeps the tables consistent.
pub proof fn failure_keeps_consistent(
    s: Tables,
    id: u128,
    reason: Seq<char>,
    dead_end_enabled: bool,
    now: int,
)
    requires
        consistent(s),
        is_active_task(s.tasks, id),
    ensures
        consistent(
            finished(
                Tables { tasks: s.tasks.map_values(failed_row(id, reason, now)), ..s },
                id,
                StatusKind::Failure,
                dead_end_enabled,
                Notice::End,
                now,
            ),
        ),
{
    let t = Tables { tasks: s.tasks.map_values(failed_row(id, reason, now)), ..s };
    let w = choose|w: int|
        0 <= w < s.tasks.len() && #[trigger] s.tasks[w].id == id && s.tasks[w].status.active();
    assert forall|i: int| 0 <= i < s.tasks.len() && (
    #[trigger] s.tasks[i]).id == id implies i == w by {
        assert(s.tasks[i].id == s.tasks[w].id);
    }
    assert(ends(s, t, id, StatusKind::Failure));
    finish_keeps_consistent(
        s,
        t,
        id,
        StatusKind::Failure,
        dead_end_enabled,
        Notice::End,
        now,
    );
}

/// Timing out a running task is the end of that task.
proof fn lemma_timeout_ends(s: Tables, id: u128, now: int)
    requires
        unique_ids(s.tasks),
        has_status(s.tasks, id, StatusKind::Running),
    ensures
        ends(
            s,
            Tables { tasks: s.tasks.map_values(timeout_row(id, now)), ..s },
            id,
            StatusKind::Failure,
        ),
{
    let w = choose|w: int|
        0 <= w < s.tasks.len() && #[trigger] s.tasks[w].id == id && s.tasks[w].status
            == StatusKind::Running;
    assert forall|i: int| 0 <= i < s.tasks.len() && (
    #[trigger] s.tasks[i]).id == id implies i == w by {
        assert(s.tasks[i].id == s.tasks[w].id);
    }
}

/// Timing out a running task keeps the graph.
pub proof fn timeout_keeps_graph(s: Tables, id: u128, dead_end_enabled: bool, now: int)
    requires
        graph_wf(s),
        has_status(s.tasks, id, StatusKind::Running),
    ensures
        graph_wf(
            finished(
                Tables { tasks: s.tasks.map_values(timeout_row(id, now)), ..s },
                id,
                StatusKind::Failure,
                dead_end_enabled,
                Notice::End,
                now,
            ),
        ),
{
    let t = Tables { tasks: s.tasks.map_values(timeout_row(id, now)), ..s };
    lemma_timeout_ends(s, id, now);
    finish_keeps_graph(s, t, id, StatusKind::Failure, dead_end_enabled, Notice::End, now);
}

/// Timing out a running task keeps the tables consistent.
pub proof fn timeout_keeps_consistent(s: Tables, id: u128, dead_end_enabled: bool, now: int)
    requires
        consistent(s),
        has_status(s.tasks, id, StatusKind::Running),
    ensures
        consistent(
            finished(
                Tables { tasks: s.tasks.map_values(timeout_row(id, now)), ..s },
                id,
                StatusKind::Failure,
                dead_end_enabled,
                Notice::End,
                now,
            ),
        ),
{
    let t = Tables { tasks: s.tasks.map_values(timeout_row(id, now)), ..s };
    lemma_timeout_ends(s, id, now);
    finish_keeps_consistent(s, t, id, StatusKind::Failure, dead_end_enabled, Notice::End, now);
}

/// Canceling a live task keeps the tables consistent.
pub proof fn cancel_keeps_consistent(
    s: Tables,
    id: u128,
    dead_end_enabled: bool,
    notice: Notice,
    now: int,
)
    requires
        consistent(s),
        live(s.tasks, id),
    ensures
        consistent(
            finished(
                Tables { tasks: s.tasks.map_values(cancel_task_row(id, now)), ..s },
                id,
                StatusKind::Canceled,
                dead_end_enabled,
                notice,
                now,
            ),
        ),
{
    let t = Tables { tasks: s.tasks.map_values(cancel_task_row(id, now)), ..s };
    let w = choose|w: int|
        0 <= w < s.tasks.len() && #[trigger] s.tasks[w].id == id
            && !s.tasks[w].status.terminal();
    assert forall|i: int| 0 <= i < s.tasks.len() && (
    #[trigger] s.tasks[i]).id == id implies i == w by {
        assert(s.tasks[i].id == s.tasks[w].id);
    }
    assert(ends(s, t, id, StatusKind::Canceled));
    finish_keeps_consistent(s, t, id, StatusKind::Canceled, dead_end_enabled, notice, now);
}

/// A task that has ended is final: the end of another task changes none of its
/// columns.
pub proof fn ended_tasks_are_final(
    a: Tables,
    b: Tables,
    id: u128,
    status: StatusKind,
    dead_end_enabled: bool,
    notice: Notice,
    now: int,
    i: int,
)
    requires
        unique_ids(a.tasks),
        ends(a, b, id, status),
        status.terminal(),
        0 <= i < a.tasks.len(),
        a.tasks[i].status.terminal(),
    ensures
        finished(b, id, status, dead_end_enabled, notice, now).tasks[i] == a.tasks[i],
{
    lemma_ended(a, b, id, status, dead_end_enabled, now);
    let spread = propagation(b.tasks, b.links, id, status, now);
    let top = dead_ends(spread, b.links, id, dead_end_enabled, now);
    let ids = terminal_ids(id, spread.failed, top.canceled);
    assert(ended_with(a.tasks[i], top.rows[i], ids));
    assert(b.tasks[i] == a.tasks[i]);
}

// ---------------------------------------------------------------------------
// Batch completion
// ---------------------------------------------------------------------------

proof fn lemma_enqueued_is_known(
    outbox: Seq<OutboxRow>,
    ledger: Seq<LedgerRow>,
    row: OutboxRow,
    key: Seq<char>,
)
    ensures
        queued(enqueued(outbox, ledger, row), row.key) || recorded(ledger, row.key),
        queued(outbox, key) ==> queued(enqueued(outbox, ledger, row), key),
{
    let after = enqueued(outbox, ledger, row);
    if !queued(outbox, row.key) && !recorded(ledger, row.key) {
        assert(after[outbox.len() as int].key == row.key);
    }
    if queued(outbox, key) {
        let i = choose|i: int| 0 <= i < outbox.len() && (#[trigger] outbox[i]).key == key;
        assert(after[i].key == key);
    }
}

proof fn lemma_signalled_is_known(
    outbox: Seq<OutboxRow>,
    ledger: Seq<LedgerRow>,
    batches: Seq<Batch>,
    p: spec_fn(Batch) -> bool,
    now: int,
    k: int,
)
    requires
        0 <= k < batches.len(),
        p(batches[k]),
    ensures
        queued(signalled(outbox, ledger, batches, p, now), batch_key(batches[k].id)) || recorded(
            ledger,
            batch_key(batches[k].id),
        ),
    decreases batches.len(),
{
    let key = batch_key(batches[k].id);
    let before = signalled(outbox, ledger, batches.drop_last(), p, now);
    let row = batch_row(batches.last().id, batch_key(batches.last().id), now);
    lemma_enqueued_is_known(before, ledger, row, key);
    if k < batches.len() - 1 {
        lemma_signalled_is_known(outbox, ledger, batches.drop_last(), p, now, k);
    }
}

/// Where the end of a task leaves its batch with nothing to wait for, and the
/// batch has actions to execute then, its completion is queued, or is on record
/// as delivered already. By [`consistent`] it is never there twice.
pub proof fn completion_is_signalled(
    a: Tables,
    b: Tables,
    id: u128,
    status: StatusKind,
    dead_end_enabled: bool,
    notice: Notice,
    now: int,
    k: int,
)
    requires
        consistent(a),
        ends(a, b, id, status),
        status.terminal(),
        0 <= k < a.batches.len(),
        a.batches[k].on_complete.registered(),
        a.batches[k].remaining > 0,
        finished(b, id, status, dead_end_enabled, notice, now).batches[k].remaining == 0,
    ensures
        ({
            let f = finished(b, id, status, dead_end_enabled, notice, now);
            let key = batch_key(a.batches[k].id);
            queued(f.outbox, key) || recorded(f.ledger, key)
        }),
{
    let spread = propagation(b.tasks, b.links, id, status, now);
    let top = dead_ends(spread, b.links, id, dead_end_enabled, now);
    let ids = terminal_ids(id, spread.failed, top.canceled);
    let tasks = top.rows.map_values(released_row(ids));
    lemma_signalled_is_known(
        told(b, id, status, dead_end_enabled, notice, now),
        b.ledger,
        b.batches,
        completes(tasks, ids),
        now,
        k,
    );
}

// ---------------------------------------------------------------------------
// Transitions between live states
// ---------------------------------------------------------------------------

/// A row that stays live, or stays ended, and keeps what others depend on.
pub open spec fn live_step(a: TaskRow, b: TaskRow) -> bool {
    &&& b.id == a.id
    &&& b.batch_id == a.batch_id
    &&& b.wait_finished == a.wait_finished
    &&& b.wait_success == a.wait_success
    &&& b.status.terminal() == a.status.terminal()
    &&& b.status == StatusKind::Waiting ==> b.wait_finished > 0
    &&& !b.status.terminal() && !b.status.blocked() ==> b.wait_finished == 0
}

/// Rows that stay live, or stay ended, keep the graph and the counts of the
/// batches.
pub proof fn lemma_live_graph(a: Tables, b: Tables)
    requires
        graph_ok(a),
        b.links == a.links,
        b.batches == a.batches,
        b.tasks.len() == a.tasks.len(),
        forall|i: int| 0 <= i < a.tasks.len() ==> live_step(#[trigger] a.tasks[i], b.tasks[i]),
    ensures
        graph_ok(b),
        remaining_ok(a) ==> remaining_ok(b),
{
    let none = Seq::<u128>::empty();
    assert forall|x: u128| #[trigger] live(b.tasks, x) == live(a.tasks, x) by {
        if live(a.tasks, x) {
            let i = choose|i: int|
                0 <= i < a.tasks.len() && #[trigger] a.tasks[i].id == x
                    && !a.tasks[i].status.terminal();
            assert(b.tasks[i].id == x);
        }
        if live(b.tasks, x) {
            let i = choose|i: int|
                0 <= i < b.tasks.len() && #[trigger] b.tasks[i].id == x
                    && !b.tasks[i].status.terminal();
            assert(a.tasks[i].id == x);
        }
    }
    assert forall|i: int, j: int|
        0 <= i < b.tasks.len() && 0 <= j < b.tasks.len() && #[trigger] b.tasks[i].id
            == #[trigger] b.tasks[j].id implies i == j by {
        assert(a.tasks[i].id == a.tasks[j].id);
    }
    assert forall|x: u128| is_task(a.tasks, x) implies #[trigger] is_task(b.tasks, x) by {
        let i = choose|i: int| 0 <= i < a.tasks.len() && #[trigger] a.tasks[i].id == x;
        assert(b.tasks[i].id == x);
    }
    assert forall|k: int| 0 <= k < b.links.len() implies is_task(
        b.tasks,
        (#[trigger] b.links[k]).parent_id,
    ) && is_task(b.tasks, b.links[k].child_id) by {
        assert(is_task(a.tasks, a.links[k].parent_id));
    }
    assert forall|i: int| 0 <= i < b.tasks.len() implies row_deps_ok(
        b.tasks,
        b.links,
        none,
        #[trigger] b.tasks[i],
    ) by {
        assert(live_step(a.tasks[i], b.tasks[i]));
        assert(row_deps_ok(a.tasks, a.links, none, a.tasks[i]));
        let c = b.tasks[i].id;
        lemma_count_same(
            a.links,
            waits_for(a.tasks, none, c),
            b.links,
            waits_for(b.tasks, none, c),
        );
        lemma_count_same(
            a.links,
            waits_for_success(a.tasks, none, c),
            b.links,
            waits_for_success(b.tasks, none, c),
        );
    }
    assert forall|k: int| remaining_ok(a) && 0 <= k < b.batches.len() implies (
    #[trigger] b.batches[k]).remaining == count(b.tasks, live_in(b.batches[k].id)) by {
        let x = a.batches[k].id;
        assert forall|i: int| 0 <= i < a.tasks.len() implies #[trigger] live_in(x)(a.tasks[i])
            == live_in(x)(b.tasks[i]) by {
            assert(live_step(a.tasks[i], b.tasks[i]));
        }
        lemma_count_same(a.tasks, live_in(x), b.tasks, live_in(x));
    }
}

/// Rows that stay live, or stay ended, and keep their slots keep the tables
/// consistent.
pub proof fn lemma_live_steps(a: Tables, b: Tables)
    requires
        consistent(a),
        b == (Tables { tasks: b.tasks, ..a }),
        b.tasks.len() == a.tasks.len(),
        forall|i: int|
            0 <= i < a.tasks.len() ==> {
                &&& live_step(#[trigger] a.tasks[i], b.tasks[i])
                &&& b.tasks[i].slot_keys == a.tasks[i].slot_keys
                &&& b.tasks[i].capacity_charge == a.tasks[i].capacity_charge
                &&& a.tasks[i].slot_keys is Some ==> b.tasks[i].status.active()
            },
    ensures
        consistent(b),
{
    lemma_live_graph(a, b);
    assert forall|key: Seq<char>| #[trigger] usage(b.slots, key) == demand(b.tasks, key) by {
        lemma_sum_same(
            b.tasks,
            |r: TaskRow| contribution(r, key),
            a.tasks,
            |r: TaskRow| contribution(r, key),
        );
        assert(usage(a.slots, key) == demand(a.tasks, key));
    }
    assert forall|i: int|
        0 <= i < b.tasks.len() && (
        #[trigger] b.tasks[i]).capacity_charge is Some implies b.tasks[i].capacity_charge->0
        >= 0 by {
        assert(a.tasks[i].capacity_charge is Some);
    }
    assert forall|i: int|
        0 <= i < b.tasks.len() && (
        #[trigger] b.tasks[i]).slot_keys is Some implies b.tasks[i].status.active() by {
        assert(a.tasks[i].slot_keys is Some);
    }
}

proof fn lemma_no_waits(s: Tables, i: int)
    requires
        graph_ok(s),
        0 <= i < s.tasks.len(),
        !s.tasks[i].status.terminal(),
    ensures
        0 <= s.tasks[i].wait_success <= s.tasks[i].wait_finished,
{
    let none = Seq::<u128>::empty();
    assert(row_deps_ok(s.tasks, s.links, none, s.tasks[i]));
    lemma_count_less(
        s.links,
        waits_for_success(s.tasks, none, s.tasks[i].id),
        s.links,
        waits_for(s.tasks, none, s.tasks[i].id),
    );
}

/// Consistent tables are well formed, so that every operation accepts what the
/// others leave behind.
pub proof fn consistent_is_wf(s: Tables)
    requires
        consistent(s),
        s.links.len() <= i32::MAX,
    ensures
        s.wf(),
{
    graph_is_wf(s);
}

/// Tables whose links and counters are a graph are well formed.
pub proof fn graph_is_wf(s: Tables)
    requires
        graph_wf(s),
        s.links.len() <= i32::MAX,
    ensures
        s.wf(),
{
    assert forall|i: int| 0 <= i < s.tasks.len() && (
    #[trigger] s.tasks[i]).status.blocked() implies s.tasks[i].wait_finished - s.links.len() - 1
        >= i32::MIN && s.tasks[i].wait_success - 1 >= i32::MIN by {
        lemma_no_waits(s, i);
    }
}

/// Claiming tasks without rules, starting a claimed task, pausing and resuming
/// keep the tables consistent.
pub proof fn live_transitions_keep_consistent(s: Tables, ids: Seq<u128>, id: u128, now: int)
    requires
        consistent(s),
    ensures
        consistent(Tables { tasks: s.tasks.map_values(claim_row(ids, now)), ..s }),
        consistent(Tables { tasks: s.tasks.map_values(running_row(id, now)), ..s }),
        consistent(Tables { tasks: s.tasks.map_values(paused_row(id, now)), ..s }),
        consistent(Tables { tasks: s.tasks.map_values(resumed_row(id, now)), ..s }),
{
    let none = Seq::<u128>::empty();
    assert forall|i: int| 0 <= i < s.tasks.len() implies row_deps_ok(
        s.tasks,
        s.links,
        none,
        #[trigger] s.tasks[i],
    ) && (!s.tasks[i].status.terminal() ==> 0 <= s.tasks[i].wait_success
        <= s.tasks[i].wait_finished) by {
        if !s.tasks[i].status.terminal() {
            lemma_no_waits(s, i);
        }
    }
    lemma_live_steps(s, Tables { tasks: s.tasks.map_values(claim_row(ids, now)), ..s });
    lemma_live_steps(s, Tables { tasks: s.tasks.map_values(running_row(id, now)), ..s });
    lemma_live_steps(s, Tables { tasks: s.tasks.map_values(paused_row(id, now)), ..s });
    lemma_live_steps(s, Tables { tasks: s.tasks.map_values(resumed_row(id, now)), ..s });
}

/// Pausing a task and resuming it brings it back to where it was.
pub proof fn resume_undoes_pause(s: Tables, id: u128, i: int, now: int, later: int)
    requires
        graph_ok(s),
        0 <= i < s.tasks.len(),
        s.tasks[i].id == id,
        s.tasks[i].status == StatusKind::Pending || s.tasks[i].status == StatusKind::Waiting,
    ensures
        resumed_row(id, later)(paused_row(id, now)(s.tasks[i])) == (TaskRow {
            last_updated: later,
            ..s.tasks[i]
        }),
{
    let none = Seq::<u128>::empty();
    assert(row_deps_ok(s.tasks, s.links, none, s.tasks[i]));
    lemma_no_waits(s, i);
}

/// A claim under start rules keeps the tables consistent, whatever it answers.
pub proof fn claim_keeps_consistent(
    s: Tables,
    t: TaskRow,
    wanted: Seq<SlotAsk>,
    now: int,
    after_tasks: Seq<TaskRow>,
    after_slots: Seq<SlotRow>,
    result: ClaimResult,
    blocked: Option<(Seq<char>, int)>,
)
    requires
        consistent(s),
        slots_of(keyed(t), charge(t), wanted),
        charge(t) >= 0,
        claim_outcome_with(
            s.tasks,
            s.slots,
            t,
            wanted,
            now,
            after_tasks,
            after_slots,
            result,
            blocked,
        ),
    ensures
        consistent(Tables { tasks: after_tasks, slots: after_slots, ..s }),
{
    let none = Seq::<u128>::empty();
    let b = Tables { tasks: after_tasks, slots: after_slots, ..s };
    claim_keeps_slots(
        s.tasks,
        s.slots,
        t,
        wanted,
        now,
        after_tasks,
        after_slots,
        result,
        blocked,
    );
    assert forall|i: int| 0 <= i < s.tasks.len() implies live_step(
        #[trigger] s.tasks[i],
        b.tasks[i],
    ) by {
        assert(row_deps_ok(s.tasks, s.links, none, s.tasks[i]));
    }
    lemma_live_graph(s, b);
    assert forall|i: int|
        0 <= i < b.tasks.len() && (
        #[trigger] b.tasks[i]).capacity_charge is Some implies b.tasks[i].capacity_charge->0
        >= 0 by {
        assert(s.tasks[i].capacity_charge is Some ==> s.tasks[i].capacity_charge->0 >= 0);
    }
}

/// Taking back stale claims keeps the graph.
pub proof fn requeue_keeps_graph(s: Tables, timeout: int, now: int)
    requires
        graph_wf(s),
    ensures
        ({
            let ids = ids_where(s.tasks, stale_claim(timeout, now));
            let moved = s.tasks.map_values(requeued_row(timeout, now));
            let b = Tables {
                tasks: moved.map_values(released_row(ids)),
                slots: s.slots.map_values(released_slot(moved, ids)),
                ..s
            };
            graph_wf(b) && (remaining_ok(s) ==> remaining_ok(b))
        }),
{
    let none = Seq::<u128>::empty();
    let ids = ids_where(s.tasks, stale_claim(timeout, now));
    let moved = s.tasks.map_values(requeued_row(timeout, now));
    let b = Tables {
        tasks: moved.map_values(released_row(ids)),
        slots: s.slots.map_values(released_slot(moved, ids)),
        ..s
    };
    assert forall|i: int| 0 <= i < s.tasks.len() implies live_step(
        #[trigger] s.tasks[i],
        b.tasks[i],
    ) by {
        assert(row_deps_ok(s.tasks, s.links, none, s.tasks[i]));
        assert(b.tasks[i] == released_row(ids)(moved[i]));
    }
    lemma_live_graph(s, b);
    assert forall|i: int|
        0 <= i < b.tasks.len() && (
        #[trigger] b.tasks[i]).capacity_charge is Some implies b.tasks[i].capacity_charge->0
        >= 0 by {
        assert(b.tasks[i] == released_row(ids)(moved[i]));
        assert(s.tasks[i].capacity_charge is Some);
    }
}

/// Taking back stale claims keeps the tables consistent.
pub proof fn requeue_keeps_consistent(s: Tables, timeout: int, now: int)
    requires
        consistent(s),
    ensures
        ({
            let ids = ids_where(s.tasks, stale_claim(timeout, now));
            let moved = s.tasks.map_values(requeued_row(timeout, now));
            consistent(
                Tables {
                    tasks: moved.map_values(released_row(ids)),
                    slots: s.slots.map_values(released_slot(moved, ids)),
                    ..s
                },
            )
        }),
{
    let stale = stale_claim(timeout, now);
    let ids = ids_where(s.tasks, stale);
    let moved = s.tasks.map_values(requeued_row(timeout, now));
    let b = Tables {
        tasks: moved.map_values(released_row(ids)),
        slots: s.slots.map_values(released_slot(moved, ids)),
        ..s
    };
    assert forall|key: Seq<char>| #[trigger] usage(s.slots, key) == demand(moved, key) by {
        lemma_sum_same(
            moved,
            |r: TaskRow| contribution(r, key),
            s.tasks,
            |r: TaskRow| contribution(r, key),
        );
    }
    assert forall|i: int|
        0 <= i < moved.len() && (
        #[trigger] moved[i]).capacity_charge is Some implies moved[i].capacity_charge->0 >= 0 by {
        assert(s.tasks[i].capacity_charge is Some);
    }
    release_keeps_slots(moved, s.slots, ids);
    requeue_keeps_graph(s, timeout, now);
    assert forall|i: int|
        0 <= i < b.tasks.len() && (
        #[trigger] b.tasks[i]).slot_keys is Some implies b.tasks[i].status.active() by {
        assert(b.tasks[i] == released_row(ids)(moved[i]));
        assert(s.tasks[i].status.active());
        if stale(s.tasks[i]) {
            lemma_ids_where_has(s.tasks, stale, s.tasks[i].id);
            assert(ids.contains(s.tasks[i].id));
        }
    }
}

// ---------------------------------------------------------------------------
// Stopping a batch
// ---------------------------------------------------------------------------

/// Links join tasks of one batch.
pub open spec fn links_in_batch(s: Tables) -> bool {
    forall|k: int, i: int, j: int|
        #![trigger s.links[k], s.tasks[i], s.tasks[j]]
        0 <= k < s.links.len() && 0 <= i < s.tasks.len() && 0 <= j < s.tasks.len()
            && s.links[k].parent_id == s.tasks[i].id && s.links[k].child_id == s.tasks[j].id
            ==> s.tasks[i].batch_id == s.tasks[j].batch_id
}

/// Stopping a batch keeps the tables consistent, and leaves no live task in it.
pub proof fn stop_keeps_consistent(s: Tables, batch: u128, now: int)
    requires
        consistent(s),
        links_in_batch(s),
    ensures
        consistent(after_stop(s, batch, now)),
        forall|i: int|
            0 <= i < s.tasks.len() ==> {
                let t = #[trigger] after_stop(s, batch, now).tasks[i];
                t.batch_id == Some(batch) ==> t.status.terminal()
            },
{
    let none = Seq::<u128>::empty();
    let b = after_stop(s, batch, now);
    let ids = ids_where(s.tasks, batch_live(batch));
    let canceled = s.tasks.map_values(stopped_row(batch, now));
    assert forall|i: int| 0 <= i < s.tasks.len() implies (ids.contains((#[trigger] s.tasks[i]).id)
        <==> batch_live(batch)(s.tasks[i])) by {
        lemma_ids_where_has(s.tasks, batch_live(batch), s.tasks[i].id);
        if ids.contains(s.tasks[i].id) {
            let j = choose|j: int|
                0 <= j < s.tasks.len() && #[trigger] s.tasks[j].id == s.tasks[i].id && batch_live(
                    batch,
                )(s.tasks[j]);
            assert(s.tasks[i].id == s.tasks[j].id);
        }
    }
    assert forall|i: int| 0 <= i < s.tasks.len() implies {
        let t = #[trigger] b.tasks[i];
        let r = s.tasks[i];
        &&& t.id == r.id
        &&& t.batch_id == r.batch_id
        &&& t.wait_finished == r.wait_finished
        &&& t.wait_success == r.wait_success
        &&& t.status == if batch_live(batch)(r) {
            StatusKind::Canceled
        } else {
            r.status
        }
        &&& t.batch_id == Some(batch) ==> t.status.terminal()
        &&& t.slot_keys is Some ==> !batch_live(batch)(r) && r.slot_keys is Some
    } by {
        assert(b.tasks[i] == released_row(ids)(canceled[i]));
        assert(canceled[i] == stopped_row(batch, now)(s.tasks[i]));
    }
    assert forall|key: Seq<char>| #[trigger] usage(s.slots, key) == demand(canceled, key) by {
        lemma_sum_same(
            canceled,
            |r: TaskRow| contribution(r, key),
            s.tasks,
            |r: TaskRow| contribution(r, key),
        );
    }
    assert forall|i: int|
        0 <= i < canceled.len() && (
        #[trigger] canceled[i]).capacity_charge is Some implies canceled[i].capacity_charge->0
        >= 0 by {
        assert(s.tasks[i].capacity_charge is Some);
    }
    release_keeps_slots(canceled, s.slots, ids);
    assert forall|i: int|
        0 <= i < b.tasks.len() && (
        #[trigger] b.tasks[i]).slot_keys is Some implies b.tasks[i].status.active() by {
        assert(s.tasks[i].slot_keys is Some);
    }
    lemma_stop_graph(s, b, batch);
    assert forall|k: int| 0 <= k < b.batches.len() implies (#[trigger] b.batches[k]).remaining
        == count(b.tasks, live_in(b.batches[k].id)) by {
        let x = s.batches[k].id;
        assert(b.batches[k] == with_remaining(batch, 0)(s.batches[k]));
        if x == batch {
            assert forall|i: int| 0 <= i < b.tasks.len() implies !#[trigger] live_in(x)(
                b.tasks[i],
            ) by {}
            lemma_count_zero(b.tasks, live_in(x));
        } else {
            assert forall|i: int| 0 <= i < s.tasks.len() implies #[trigger] live_in(x)(
                s.tasks[i],
            ) == live_in(x)(b.tasks[i]) by {
                assert(b.tasks[i].id == s.tasks[i].id);
            }
            lemma_count_same(s.tasks, live_in(x), b.tasks, live_in(x));
            assert(s.batches[k].remaining == count(s.tasks, live_in(x)));
        }
    }
    lemma_cancels_disjoint(s.outbox, s.ledger, stop_notified(s.tasks, batch), now);
    lemma_signals_disjoint(
        with_cancels(s.outbox, s.ledger, stop_notified(s.tasks, batch), now),
        s.ledger,
        s.batches,
        registered_batch(batch),
        now,
    );
}

proof fn lemma_stop_graph(s: Tables, b: Tables, batch: u128)
    requires
        graph_ok(s),
        links_in_batch(s),
        b.links == s.links,
        b.tasks.len() == s.tasks.len(),
        forall|i: int|
            0 <= i < s.tasks.len() ==> {
                let t = #[trigger] b.tasks[i];
                let r = s.tasks[i];
                &&& t.id == r.id
                &&& t.batch_id == r.batch_id
                &&& t.wait_finished == r.wait_finished
                &&& t.wait_success == r.wait_success
                &&& t.status == if batch_live(batch)(r) {
                    StatusKind::Canceled
                } else {
                    r.status
                }
            },
    ensures
        graph_ok(b),
{
    let none = Seq::<u128>::empty();
    assert forall|i: int, j: int|
        0 <= i < b.tasks.len() && 0 <= j < b.tasks.len() && #[trigger] b.tasks[i].id
            == #[trigger] b.tasks[j].id implies i == j by {
        assert(s.tasks[i].id == s.tasks[j].id);
    }
    assert forall|x: u128| is_task(s.tasks, x) implies #[trigger] is_task(b.tasks, x) by {
        let i = choose|i: int| 0 <= i < s.tasks.len() && #[trigger] s.tasks[i].id == x;
        assert(b.tasks[i].id == x);
    }
    assert forall|k: int| 0 <= k < b.links.len() implies is_task(
        b.tasks,
        (#[trigger] b.links[k]).parent_id,
    ) && is_task(b.tasks, b.links[k].child_id) by {
        assert(is_task(s.tasks, s.links[k].parent_id));
    }
    assert forall|i: int| 0 <= i < b.tasks.len() implies row_deps_ok(
        b.tasks,
        b.links,
        none,
        #[trigger] b.tasks[i],
    ) by {
        assert(row_deps_ok(s.tasks, s.links, none, s.tasks[i]));
        if !b.tasks[i].status.terminal() {
            let c = b.tasks[i].id;
            assert forall|k: int|
                0 <= k < s.links.len() && (#[trigger] s.links[k]).child_id == c implies live(
                b.tasks,
                s.links[k].parent_id,
            ) == live(s.tasks, s.links[k].parent_id) by {
                let x = s.links[k].parent_id;
                if live(s.tasks, x) {
                    let j = choose|j: int|
                        0 <= j < s.tasks.len() && #[trigger] s.tasks[j].id == x
                            && !s.tasks[j].status.terminal();
                    assert(s.tasks[j].batch_id == s.tasks[i].batch_id);
                    assert(b.tasks[j].id == x);
                }
                if live(b.tasks, x) {
                    let j = choose|j: int|
                        0 <= j < b.tasks.len() && #[trigger] b.tasks[j].id == x
                            && !b.tasks[j].status.terminal();
                    assert(s.tasks[j].id == x);
                }
            }
            lemma_count_same(
                s.links,
                waits_for(s.tasks, none, c),
                b.links,
                waits_for(b.tasks, none, c),
            );
            lemma_count_same(
                s.links,
                waits_for_success(s.tasks, none, c),
                b.links,
                waits_for_success(b.tasks, none, c),
            );
        }
    }
}

} // verus!
