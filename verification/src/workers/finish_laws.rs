//! What holds of the tables whenever a task ends.

use crate::db::insert_laws::graph_ok;
use crate::db::slot_laws::{demand, holders_active, release_keeps_slots, slots_ok, usage};
use crate::db::task_crud::{charges_ok, contribution, released_row};
use crate::db::task_lifecycle::is_task;
use crate::db::webhook_execution::{completes, decremented, of_batch, signalled};
use crate::db::webhook_outbox::{enqueue_keeps_disjoint, enqueued, keys_disjoint};
use crate::models::{Batch, LedgerRow, Link, OutboxRow, StatusKind, TaskRow};
use crate::store::Tables;
use crate::tally::{count, lemma_count_same, lemma_sum_same};
use crate::workers::finish::{dead_ends, finished, noticed, terminal_ids, told, Notice};
use crate::workers::graph_laws::{
    climb_frame, climb_keeps_counters, climb_step, lemma_concat_has, propagation_frame,
    propagation_keeps_counters, propagation_step,
};
use crate::workers::propagation::{
    climb, deps_ok, live, propagation, row_deps_ok, unfinished, unique_ids, unique_links,
    waits_for, waits_for_success, CanceledAncestor,
};
use crate::workers::webhooks::{
    cancel_row, end_row, with_ancestors, with_cancels, with_ends,
};
use vstd::prelude::*;

verus! {

/// The live tasks of a batch.
pub open spec fn live_in(batch: u128) -> spec_fn(TaskRow) -> bool {
    |t: TaskRow| t.batch_id == Some(batch) && !t.status.terminal()
}

/// Every batch counts the tasks that it still waits for.
pub open spec fn remaining_ok(s: Tables) -> bool {
    forall|k: int|
        0 <= k < s.batches.len() ==> (#[trigger] s.batches[k]).remaining == count(
            s.tasks,
            live_in(s.batches[k].id),
        )
}

/// What the end of a task relies on: identifiers, links and counters are a graph, and
/// no charge is negative.
pub open spec fn graph_wf(s: Tables) -> bool {
    &&& graph_ok(s)
    &&& unique_links(s.links)
    &&& charges_ok(s.tasks)
}

/// What holds between transactions: identifiers, links and counters are a graph,
/// the slots count what the active tasks hold, every batch counts its live tasks,
/// and no event is queued twice, recorded twice or both.
pub open spec fn consistent(s: Tables) -> bool {
    &&& graph_wf(s)
    &&& holders_active(s.tasks)
    &&& slots_ok(s.tasks, s.slots)
    &&& remaining_ok(s)
    &&& keys_disjoint(s.outbox, s.ledger)
}

/// `b` is `a` with the live task `id` moved to `status`, and nothing else that
/// others depend on.
pub open spec fn ends(a: Tables, b: Tables, id: u128, status: StatusKind) -> bool {
    &&& b == Tables { tasks: b.tasks, ..a }
    &&& b.tasks.len() == a.tasks.len()
    &&& is_task(a.tasks, id)
    &&& forall|i: int|
        0 <= i < a.tasks.len() ==> {
            if (#[trigger] a.tasks[i]).id == id {
                &&& !a.tasks[i].status.terminal()
                &&& b.tasks[i].id == id
                &&& b.tasks[i].status == status
                &&& b.tasks[i].batch_id == a.tasks[i].batch_id
                &&& b.tasks[i].slot_keys == a.tasks[i].slot_keys
                &&& b.tasks[i].capacity_charge == a.tasks[i].capacity_charge
            } else {
                b.tasks[i] == a.tasks[i]
            }
        }
}

/// A counted position is in exactly one of two other counts.
proof fn lemma_count_parts<A, B>(
    s: Seq<A>,
    p: spec_fn(A) -> bool,
    t: Seq<B>,
    q: spec_fn(B) -> bool,
    r: spec_fn(B) -> bool,
)
    requires
        s.len() == t.len(),
        forall|i: int|
            0 <= i < s.len() ==> (#[trigger] p(s[i]) == (q(t[i]) || r(t[i]))) && !(q(t[i]) && r(
                t[i],
            )),
    ensures
        count(s, p) == count(t, q) + count(t, r),
    decreases s.len(),
{
    if s.len() > 0 {
        let n = s.len() - 1;
        assert forall|i: int| 0 <= i < s.drop_last().len() implies (#[trigger] p(s.drop_last()[i])
            == (q(t.drop_last()[i]) || r(t.drop_last()[i]))) && !(q(t.drop_last()[i]) && r(
            t.drop_last()[i],
        )) by {
            assert(p(s[i]) == (q(t[i]) || r(t[i])));
        }
        lemma_count_parts(s.drop_last(), p, t.drop_last(), q, r);
        assert(p(s[n]) == (q(t[n]) || r(t[n])));
    }
}

/// The columns that an end leaves alone, and which tasks ended.
pub open spec fn ended_with(a: TaskRow, f: TaskRow, ids: Seq<u128>) -> bool {
    &&& f.id == a.id
    &&& f.batch_id == a.batch_id
    &&& !a.status.terminal() == (!f.status.terminal() || ids.contains(a.id))
    &&& ids.contains(a.id) ==> f.status.terminal()
    &&& a.status.active() && !ids.contains(a.id) ==> f.status == a.status
}

/// A task ends together with those that failed and those that were canceled with
/// it, and with no others.
pub proof fn lemma_ended(
    a: Tables,
    b: Tables,
    id: u128,
    status: StatusKind,
    dead_end_enabled: bool,
    now: int,
)
    requires
        unique_ids(a.tasks),
        ends(a, b, id, status),
        status.terminal(),
    ensures
        ({
            let spread = propagation(b.tasks, b.links, id, status, now);
            let top = dead_ends(spread, b.links, id, dead_end_enabled, now);
            let ids = terminal_ids(id, spread.failed, top.canceled);
            &&& top.rows.len() == a.tasks.len()
            &&& unique_ids(b.tasks)
            &&& unique_ids(top.rows)
            &&& forall|i: int|
                0 <= i < a.tasks.len() ==> {
                    &&& ended_with(#[trigger] a.tasks[i], top.rows[i], ids)
                    &&& top.rows[i].slot_keys == a.tasks[i].slot_keys
                    &&& top.rows[i].capacity_charge == a.tasks[i].capacity_charge
                    &&& b.tasks[i].status.terminal() ==> top.rows[i] == b.tasks[i]
                }
        }),
{
    let spread = propagation(b.tasks, b.links, id, status, now);
    let from = seq![id] + spread.failed;
    let c = climb(spread.rows, b.links, from, now);
    let top = dead_ends(spread, b.links, id, dead_end_enabled, now);
    let getid = |x: CanceledAncestor| x.id;
    let gone = top.canceled.map_values(getid);
    let ids = terminal_ids(id, spread.failed, top.canceled);
    assert forall|i: int, j: int|
        0 <= i < b.tasks.len() && 0 <= j < b.tasks.len() && #[trigger] b.tasks[i].id
            == #[trigger] b.tasks[j].id implies i == j by {
        assert(a.tasks[i].id == b.tasks[i].id);
        assert(a.tasks[j].id == b.tasks[j].id);
    }
    propagation_frame(b.tasks, b.links, id, status, now);
    climb_frame(spread.rows, b.links, from, now);
    assert forall|i: int| 0 <= i < a.tasks.len() implies {
        &&& ended_with(#[trigger] a.tasks[i], top.rows[i], ids)
        &&& top.rows[i].slot_keys == a.tasks[i].slot_keys
        &&& top.rows[i].capacity_charge == a.tasks[i].capacity_charge
        &&& b.tasks[i].status.terminal() ==> top.rows[i] == b.tasks[i]
    } by {
        let x = a.tasks[i].id;
        assert(b.tasks[i].id == x);
        assert(propagation_step(b.tasks[i], spread.rows[i]));
        assert(climb_step(spread.rows[i], c.rows[i]));
        lemma_concat_has(seq![id], spread.failed, x);
        lemma_concat_has(seq![id] + spread.failed, gone, x);
        assert(seq![id].contains(x) <==> x == id) by {
            assert(seq![id][0] == id);
        }
        assert(spread.failed.contains(b.tasks[i].id) <==> b.tasks[i].status != StatusKind::Failure
            && spread.rows[i].status == StatusKind::Failure);
        assert(spread.rows[i].id == x);
        if dead_end_enabled {
            assert(gone.contains(spread.rows[i].id) <==> spread.rows[i].status
                != StatusKind::Canceled && c.rows[i].status == StatusKind::Canceled);
        } else {
            assert(gone =~= Seq::empty());
        }
    }
}

/// Before the end of a task is propagated, its children still count it.
pub proof fn lemma_end_is_open(a: Tables, b: Tables, id: u128, status: StatusKind)
    requires
        graph_ok(a),
        ends(a, b, id, status),
        status.terminal(),
    ensures
        !live(b.tasks, id),
        deps_ok(b.tasks, b.links, seq![id]),
{
    let none = Seq::<u128>::empty();
    let open = seq![id];
    assert(open[0] == id);
    if live(b.tasks, id) {
        let i = choose|i: int|
            0 <= i < b.tasks.len() && #[trigger] b.tasks[i].id == id
                && !b.tasks[i].status.terminal();
        assert(a.tasks[i].id == id || b.tasks[i] == a.tasks[i]);
    }
    assert forall|x: u128| #[trigger] unfinished(b.tasks, open, x) == unfinished(
        a.tasks,
        none,
        x,
    ) by {
        if x == id {
            let i = choose|i: int| 0 <= i < a.tasks.len() && #[trigger] a.tasks[i].id == id;
            assert(!a.tasks[i].status.terminal());
            assert(live(a.tasks, id));
            assert(open.contains(id));
        } else {
            assert(!open.contains(x));
            if live(a.tasks, x) {
                let i = choose|i: int|
                    0 <= i < a.tasks.len() && #[trigger] a.tasks[i].id == x
                        && !a.tasks[i].status.terminal();
                assert(b.tasks[i] == a.tasks[i]);
            }
            if live(b.tasks, x) {
                let i = choose|i: int|
                    0 <= i < b.tasks.len() && #[trigger] b.tasks[i].id == x
                        && !b.tasks[i].status.terminal();
                assert(a.tasks[i].id == x);
            }
        }
    }
    assert forall|i: int| 0 <= i < b.tasks.len() implies row_deps_ok(
        b.tasks,
        b.links,
        open,
        #[trigger] b.tasks[i],
    ) by {
        assert(row_deps_ok(a.tasks, a.links, none, a.tasks[i]));
        if !b.tasks[i].status.terminal() {
            let c = b.tasks[i].id;
            assert(b.tasks[i] == a.tasks[i]);
            lemma_count_same(
                a.links,
                waits_for(a.tasks, none, c),
                a.links,
                waits_for(b.tasks, open, c),
            );
            lemma_count_same(
                a.links,
                waits_for_success(a.tasks, none, c),
                a.links,
                waits_for_success(b.tasks, open, c),
            );
        }
    }
}

/// Changing no identifier, status or counter keeps the graph.
proof fn lemma_same_graph(a: Seq<TaskRow>, b: Seq<TaskRow>, links: Seq<Link>)
    requires
        deps_ok(a, links, Seq::empty()),
        a.len() == b.len(),
        forall|i: int|
            0 <= i < a.len() ==> {
                &&& (#[trigger] b[i]).id == a[i].id
                &&& b[i].status == a[i].status
                &&& b[i].wait_finished == a[i].wait_finished
                &&& b[i].wait_success == a[i].wait_success
            },
    ensures
        deps_ok(b, links, Seq::empty()),
{
    let none = Seq::<u128>::empty();
    assert forall|x: u128| #[trigger] live(b, x) == live(a, x) by {
        if live(a, x) {
            let i = choose|i: int|
                0 <= i < a.len() && #[trigger] a[i].id == x && !a[i].status.terminal();
            assert(b[i].id == x);
        }
        if live(b, x) {
            let i = choose|i: int|
                0 <= i < b.len() && #[trigger] b[i].id == x && !b[i].status.terminal();
            assert(a[i].id == x);
        }
    }
    assert forall|i: int| 0 <= i < b.len() implies row_deps_ok(b, links, none, #[trigger] b[i]) by {
        assert(row_deps_ok(a, links, none, a[i]));
        let c = b[i].id;
        lemma_count_same(links, waits_for(a, none, c), links, waits_for(b, none, c));
        lemma_count_same(links, waits_for_success(a, none, c), links, waits_for_success(b, none, c));
    }
}

proof fn lemma_finish_graph(
    a: Tables,
    b: Tables,
    id: u128,
    status: StatusKind,
    dead_end_enabled: bool,
    notice: Notice,
    now: int,
)
    requires
        graph_ok(a),
        unique_links(a.links),
        ends(a, b, id, status),
        status.terminal(),
    ensures
        graph_ok(finished(b, id, status, dead_end_enabled, notice, now)),
{
    let spread = propagation(b.tasks, b.links, id, status, now);
    let top = dead_ends(spread, b.links, id, dead_end_enabled, now);
    let ids = terminal_ids(id, spread.failed, top.canceled);
    let f = finished(b, id, status, dead_end_enabled, notice, now);
    lemma_ended(a, b, id, status, dead_end_enabled, now);
    lemma_end_is_open(a, b, id, status);
    propagation_keeps_counters(b.tasks, b.links, id, status, now);
    propagation_frame(b.tasks, b.links, id, status, now);
    if dead_end_enabled {
        climb_keeps_counters(spread.rows, b.links, seq![id] + spread.failed, now);
    }
    assert(f.tasks =~= top.rows.map_values(released_row(ids)));
    lemma_same_graph(top.rows, f.tasks, b.links);
    assert forall|i: int, j: int|
        0 <= i < f.tasks.len() && 0 <= j < f.tasks.len() && #[trigger] f.tasks[i].id
            == #[trigger] f.tasks[j].id implies i == j by {
        assert(top.rows[i].id == top.rows[j].id);
    }
    assert forall|x: u128| is_task(a.tasks, x) implies #[trigger] is_task(f.tasks, x) by {
        let i = choose|i: int| 0 <= i < a.tasks.len() && #[trigger] a.tasks[i].id == x;
        assert(f.tasks[i].id == x);
    }
    assert forall|k: int| 0 <= k < f.links.len() implies is_task(
        f.tasks,
        (#[trigger] f.links[k]).parent_id,
    ) && is_task(f.tasks, f.links[k].child_id) by {
        assert(f.links[k] == a.links[k]);
    }
}

proof fn lemma_finish_slots(
    a: Tables,
    b: Tables,
    id: u128,
    status: StatusKind,
    dead_end_enabled: bool,
    notice: Notice,
    now: int,
)
    requires
        unique_ids(a.tasks),
        charges_ok(a.tasks),
        holders_active(a.tasks),
        slots_ok(a.tasks, a.slots),
        ends(a, b, id, status),
        status.terminal(),
    ensures
        ({
            let f = finished(b, id, status, dead_end_enabled, notice, now);
            &&& charges_ok(f.tasks)
            &&& holders_active(f.tasks)
            &&& slots_ok(f.tasks, f.slots)
        }),
{
    let spread = propagation(b.tasks, b.links, id, status, now);
    let top = dead_ends(spread, b.links, id, dead_end_enabled, now);
    let ids = terminal_ids(id, spread.failed, top.canceled);
    let f = finished(b, id, status, dead_end_enabled, notice, now);
    lemma_ended(a, b, id, status, dead_end_enabled, now);
    assert forall|key: Seq<char>| #[trigger] usage(a.slots, key) == demand(top.rows, key) by {
        lemma_sum_same(
            top.rows,
            |r: TaskRow| contribution(r, key),
            a.tasks,
            |r: TaskRow| contribution(r, key),
        );
    }
    assert forall|i: int|
        0 <= i < top.rows.len() && (
        #[trigger] top.rows[i]).capacity_charge is Some implies top.rows[i].capacity_charge->0
        >= 0 by {
        assert(a.tasks[i].capacity_charge is Some);
    }
    release_keeps_slots(top.rows, a.slots, ids);
    assert(f.tasks =~= top.rows.map_values(released_row(ids)));
    assert forall|i: int|
        0 <= i < f.tasks.len() && (
        #[trigger] f.tasks[i]).slot_keys is Some implies f.tasks[i].status.active() by {
        assert(ended_with(a.tasks[i], top.rows[i], ids));
        assert(f.tasks[i] == released_row(ids)(top.rows[i]));
    }
}

proof fn lemma_ends_disjoint(
    outbox: Seq<OutboxRow>,
    ledger: Seq<LedgerRow>,
    tasks: Seq<u128>,
    status: StatusKind,
    now: int,
)
    requires
        keys_disjoint(outbox, ledger),
    ensures
        keys_disjoint(with_ends(outbox, ledger, tasks, status, now), ledger),
    decreases tasks.len(),
{
    if tasks.len() > 0 {
        lemma_ends_disjoint(outbox, ledger, tasks.drop_last(), status, now);
        enqueue_keeps_disjoint(
            with_ends(outbox, ledger, tasks.drop_last(), status, now),
            ledger,
            end_row(tasks.last(), status, now),
        );
    }
}

pub proof fn lemma_cancels_disjoint(
    outbox: Seq<OutboxRow>,
    ledger: Seq<LedgerRow>,
    tasks: Seq<u128>,
    now: int,
)
    requires
        keys_disjoint(outbox, ledger),
    ensures
        keys_disjoint(with_cancels(outbox, ledger, tasks, now), ledger),
    decreases tasks.len(),
{
    if tasks.len() > 0 {
        lemma_cancels_disjoint(outbox, ledger, tasks.drop_last(), now);
        enqueue_keeps_disjoint(
            with_cancels(outbox, ledger, tasks.drop_last(), now),
            ledger,
            cancel_row(tasks.last(), now),
        );
    }
}

proof fn lemma_ancestors_disjoint(
    outbox: Seq<OutboxRow>,
    ledger: Seq<LedgerRow>,
    ancestors: Seq<CanceledAncestor>,
    now: int,
)
    requires
        keys_disjoint(outbox, ledger),
    ensures
        keys_disjoint(with_ancestors(outbox, ledger, ancestors, now), ledger),
    decreases ancestors.len(),
{
    if ancestors.len() > 0 {
        let before = with_ancestors(outbox, ledger, ancestors.drop_last(), now);
        let x = ancestors.last();
        lemma_ancestors_disjoint(outbox, ledger, ancestors.drop_last(), now);
        enqueue_keeps_disjoint(before, ledger, cancel_row(x.id, now));
        let mid = if x.was_active {
            enqueued(before, ledger, cancel_row(x.id, now))
        } else {
            before
        };
        enqueue_keeps_disjoint(mid, ledger, end_row(x.id, StatusKind::Canceled, now));
    }
}

pub proof fn lemma_signals_disjoint(
    outbox: Seq<OutboxRow>,
    ledger: Seq<LedgerRow>,
    batches: Seq<Batch>,
    p: spec_fn(Batch) -> bool,
    now: int,
)
    requires
        keys_disjoint(outbox, ledger),
    ensures
        keys_disjoint(signalled(outbox, ledger, batches, p, now), ledger),
    decreases batches.len(),
{
    if batches.len() > 0 {
        lemma_signals_disjoint(outbox, ledger, batches.drop_last(), p, now);
        enqueue_keeps_disjoint(
            signalled(outbox, ledger, batches.drop_last(), p, now),
            ledger,
            crate::db::webhook_outbox::batch_row(
                batches.last().id,
                crate::action::batch_key(batches.last().id),
                now,
            ),
        );
    }
}

proof fn lemma_finish_keys(
    b: Tables,
    id: u128,
    status: StatusKind,
    dead_end_enabled: bool,
    notice: Notice,
    now: int,
)
    requires
        keys_disjoint(b.outbox, b.ledger),
    ensures
        ({
            let f = finished(b, id, status, dead_end_enabled, notice, now);
            keys_disjoint(f.outbox, f.ledger)
        }),
{
    let spread = propagation(b.tasks, b.links, id, status, now);
    let top = dead_ends(spread, b.links, id, dead_end_enabled, now);
    let ids = terminal_ids(id, spread.failed, top.canceled);
    let tasks = top.rows.map_values(released_row(ids));
    enqueue_keeps_disjoint(b.outbox, b.ledger, end_row(id, status, now));
    enqueue_keeps_disjoint(b.outbox, b.ledger, cancel_row(id, now));
    let own = noticed(b, id, status, notice, now);
    lemma_ends_disjoint(own, b.ledger, spread.failed, StatusKind::Failure, now);
    lemma_ancestors_disjoint(
        with_ends(own, b.ledger, spread.failed, StatusKind::Failure, now),
        b.ledger,
        top.canceled,
        now,
    );
    lemma_signals_disjoint(
        told(b, id, status, dead_end_enabled, notice, now),
        b.ledger,
        b.batches,
        completes(tasks, ids),
        now,
    );
}

proof fn lemma_finish_remaining(
    a: Tables,
    b: Tables,
    id: u128,
    status: StatusKind,
    dead_end_enabled: bool,
    notice: Notice,
    now: int,
)
    requires
        unique_ids(a.tasks),
        remaining_ok(a),
        ends(a, b, id, status),
        status.terminal(),
    ensures
        remaining_ok(finished(b, id, status, dead_end_enabled, notice, now)),
{
    let spread = propagation(b.tasks, b.links, id, status, now);
    let top = dead_ends(spread, b.links, id, dead_end_enabled, now);
    let ids = terminal_ids(id, spread.failed, top.canceled);
    let f = finished(b, id, status, dead_end_enabled, notice, now);
    lemma_ended(a, b, id, status, dead_end_enabled, now);
    assert(f.tasks =~= top.rows.map_values(released_row(ids)));
    assert forall|k: int| 0 <= k < f.batches.len() implies (#[trigger] f.batches[k]).remaining
        == count(f.tasks, live_in(f.batches[k].id)) by {
        let x = a.batches[k].id;
        assert(f.batches[k] == decremented(f.tasks, ids)(a.batches[k]));
        assert forall|i: int| 0 <= i < a.tasks.len() implies (#[trigger] live_in(x)(a.tasks[i])
            == (live_in(x)(f.tasks[i]) || of_batch(ids, x)(f.tasks[i]))) && !(live_in(x)(
            f.tasks[i],
        ) && of_batch(ids, x)(f.tasks[i])) by {
            assert(ended_with(a.tasks[i], top.rows[i], ids));
            assert(f.tasks[i] == released_row(ids)(top.rows[i]));
        }
        lemma_count_parts(a.tasks, live_in(x), f.tasks, live_in(x), of_batch(ids, x));
    }
}

/// The end of a task, with everything that follows from it, keeps the graph and the
/// signs of the charges.
pub proof fn finish_keeps_graph(
    a: Tables,
    b: Tables,
    id: u128,
    status: StatusKind,
    dead_end_enabled: bool,
    notice: Notice,
    now: int,
)
    requires
        graph_wf(a),
        ends(a, b, id, status),
        status.terminal(),
    ensures
        graph_wf(finished(b, id, status, dead_end_enabled, notice, now)),
{
    let spread = propagation(b.tasks, b.links, id, status, now);
    let top = dead_ends(spread, b.links, id, dead_end_enabled, now);
    let ids = terminal_ids(id, spread.failed, top.canceled);
    let f = finished(b, id, status, dead_end_enabled, notice, now);
    lemma_finish_graph(a, b, id, status, dead_end_enabled, notice, now);
    lemma_ended(a, b, id, status, dead_end_enabled, now);
    assert forall|i: int|
        0 <= i < f.tasks.len() && (
        #[trigger] f.tasks[i]).capacity_charge is Some implies f.tasks[i].capacity_charge->0
        >= 0 by {
        assert(f.tasks[i] == released_row(ids)(top.rows[i]));
        assert(top.rows[i].capacity_charge == a.tasks[i].capacity_charge);
    }
}

/// The end of a task, with everything that follows from it, keeps the tables
/// consistent.
pub proof fn finish_keeps_consistent(
    a: Tables,
    b: Tables,
    id: u128,
    status: StatusKind,
    dead_end_enabled: bool,
    notice: Notice,
    now: int,
)
    requires
        consistent(a),
        ends(a, b, id, status),
        status.terminal(),
    ensures
        consistent(finished(b, id, status, dead_end_enabled, notice, now)),
{
    lemma_finish_graph(a, b, id, status, dead_end_enabled, notice, now);
    lemma_finish_slots(a, b, id, status, dead_end_enabled, notice, now);
    lemma_finish_remaining(a, b, id, status, dead_end_enabled, notice, now);
    lemma_finish_keys(b, id, status, dead_end_enabled, notice, now);
}

} // verus!
