//! What is counted of the end of a task agrees with what the end reports.

use crate::models::{Link, StatusKind, TaskRow};
use crate::store::Tables;
use crate::tally::{
    count, ids_where, lemma_count_concat, lemma_count_less, lemma_ids_where_has,
    lemma_ids_where_len,
};
use crate::workers::change_metrics::{
    all_moves, all_noted, counted_up, moves, target, Cause, StatusChange, Tally,
};
use crate::workers::finish::{dead_ends, finished, terminal_ids, Notice};
use crate::workers::finish_laws::{ends, graph_wf, lemma_end_is_open, lemma_ended};
use crate::workers::graph_laws::{
    climb_frame, climb_step, lemma_ids_where_distinct, propagation_frame,
    propagation_keeps_counters, propagation_step,
};
use crate::workers::propagation::{
    climb, deps_ok, propagation, row_deps_ok, unique_ids, waits_for, waits_for_success,
    CanceledAncestor,
};
use vstd::prelude::*;

verus! {

/// The statuses that rows hold are known.
pub open spec fn knows(before: Map<u128, StatusKind>, rows: Seq<TaskRow>) -> bool {
    forall|i: int|
        0 <= i < rows.len() ==> before.contains_key((#[trigger] rows[i]).id) && before[rows[i].id]
            == rows[i].status
}

/// The changes of tasks other than `id` into `status`.
pub open spec fn others_to(id: u128, status: StatusKind) -> spec_fn(StatusChange) -> bool {
    |c: StatusChange| c.id != id && c.to == status
}

/// The rows of tasks other than `id` that changed into `status`.
spec fn came_to(
    before: Map<u128, StatusKind>,
    id: u128,
    status: StatusKind,
) -> spec_fn(TaskRow) -> bool {
    |r: TaskRow| count(moves(before, r), others_to(id, status)) > 0
}

/// What the changes of one row count.
proof fn lemma_moves_count(
    before: Map<u128, StatusKind>,
    r: TaskRow,
    id: u128,
    status: StatusKind,
)
    ensures
        ({
            let from = before[r.id];
            let split = from == StatusKind::Waiting && r.status == StatusKind::Canceled
                && r.wait_finished == 0 && r.wait_success == 0;
            count(moves(before, r), others_to(id, status)) == if r.id != id && before.contains_key(
                r.id,
            ) && from != r.status && (r.status == status || (split && status
                == StatusKind::Pending)) {
                1nat
            } else {
                0
            }
        }),
{
    let p = others_to(id, status);
    let m = moves(before, r);
    reveal_with_fuel(count, 3);
    if m.len() == 1 {
        assert(m.drop_last() =~= Seq::empty());
    } else if m.len() == 2 {
        assert(m.drop_last() =~= seq![m[0]]);
        assert(m.drop_last().drop_last() =~= Seq::empty());
    }
}

/// The changes of rows count the rows that changed.
proof fn lemma_all_moves_count(
    before: Map<u128, StatusKind>,
    rows: Seq<TaskRow>,
    id: u128,
    status: StatusKind,
)
    ensures
        count(all_moves(before, rows), others_to(id, status)) == count(
            rows,
            came_to(before, id, status),
        ),
    decreases rows.len(),
{
    if rows.len() > 0 {
        let p = others_to(id, status);
        lemma_all_moves_count(before, rows.drop_last(), id, status);
        lemma_count_concat(all_moves(before, rows.drop_last()), moves(before, rows.last()), p);
        lemma_moves_count(before, rows.last(), id, status);
    }
}

/// A list of the rows that satisfy `p`, without repetition, is as long as they are
/// many.
proof fn lemma_listed(rows: Seq<TaskRow>, p: spec_fn(TaskRow) -> bool, ids: Seq<u128>)
    requires
        unique_ids(rows),
        ids.no_duplicates(),
        forall|i: int| 0 <= i < rows.len() ==> (ids.contains((#[trigger] rows[i]).id) <==> p(rows[i])),
        forall|x: u128| #[trigger]
            ids.contains(x) ==> exists|i: int| 0 <= i < rows.len() && #[trigger] rows[i].id == x,
    ensures
        count(rows, p) == ids.len(),
{
    let sel = ids_where(rows, p);
    lemma_ids_where_len(rows, p);
    lemma_ids_where_distinct(rows, p);
    assert forall|x: u128| sel.to_set().contains(x) <==> ids.to_set().contains(x) by {
        lemma_ids_where_has(rows, p, x);
        if ids.contains(x) {
            let i = choose|i: int| 0 <= i < rows.len() && #[trigger] rows[i].id == x;
            assert(p(rows[i]));
        }
    }
    assert(sel.to_set() =~= ids.to_set());
    sel.unique_seq_to_set();
    ids.unique_seq_to_set();
}

/// A task that waits for nothing has both counters at zero.
proof fn lemma_counters_at_zero(rows: Seq<TaskRow>, links: Seq<Link>, i: int)
    requires
        deps_ok(rows, links, Seq::empty()),
        0 <= i < rows.len(),
        rows[i].status == StatusKind::Pending,
    ensures
        rows[i].wait_finished == 0,
        rows[i].wait_success == 0,
{
    let none = Seq::<u128>::empty();
    assert(row_deps_ok(rows, links, none, rows[i]));
    lemma_count_less(
        links,
        waits_for_success(rows, none, rows[i].id),
        links,
        waits_for(rows, none, rows[i].id),
    );
}

/// What is counted of the end of a task is what the end reports: as many other tasks
/// are counted as unblocked, as failed and as canceled as became so.
pub proof fn counted_changes_are_reported(
    a: Tables,
    b: Tables,
    before: Map<u128, StatusKind>,
    id: u128,
    status: StatusKind,
    dead_end_enabled: bool,
    notice: Notice,
    now: int,
)
    requires
        graph_wf(a),
        ends(a, b, id, status),
        status.terminal(),
        knows(before, a.tasks),
    ensures
        ({
            let spread = propagation(b.tasks, b.links, id, status, now);
            let top = dead_ends(spread, b.links, id, dead_end_enabled, now);
            let all = all_moves(
                before,
                finished(b, id, status, dead_end_enabled, notice, now).tasks,
            );
            &&& count(all, others_to(id, StatusKind::Pending)) == spread.unblocked.len()
            &&& count(all, others_to(id, StatusKind::Failure)) == spread.failed.len()
            &&& count(all, others_to(id, StatusKind::Canceled)) == top.canceled.len()
        }),
{
    let spread = propagation(b.tasks, b.links, id, status, now);
    let from = seq![id] + spread.failed;
    let c = climb(spread.rows, b.links, from, now);
    let top = dead_ends(spread, b.links, id, dead_end_enabled, now);
    let ids = terminal_ids(id, spread.failed, top.canceled);
    let f = finished(b, id, status, dead_end_enabled, notice, now).tasks;
    let getid = |x: CanceledAncestor| x.id;
    let gone = top.canceled.map_values(getid);
    lemma_ended(a, b, id, status, dead_end_enabled, now);
    lemma_end_is_open(a, b, id, status);
    propagation_keeps_counters(b.tasks, b.links, id, status, now);
    propagation_frame(b.tasks, b.links, id, status, now);
    climb_frame(spread.rows, b.links, from, now);
    if !dead_end_enabled {
        assert(gone =~= Seq::empty());
    }
    assert forall|i: int, j: int|
        0 <= i < f.len() && 0 <= j < f.len() && #[trigger] f[i].id
            == #[trigger] f[j].id implies i == j by {
        assert(top.rows[i].id == top.rows[j].id);
    }
    assert forall|i: int| 0 <= i < f.len() implies {
        let r = #[trigger] f[i];
        &&& spread.unblocked.contains(r.id) <==> came_to(before, id, StatusKind::Pending)(r)
        &&& spread.failed.contains(r.id) <==> came_to(before, id, StatusKind::Failure)(r)
        &&& gone.contains(r.id) <==> came_to(before, id, StatusKind::Canceled)(r)
    } by {
        let r = f[i];
        let none = Seq::<u128>::empty();
        assert(r == crate::db::task_crud::released_row(ids)(top.rows[i]));
        assert(before[a.tasks[i].id] == a.tasks[i].status);
        assert(propagation_step(b.tasks[i], spread.rows[i]));
        assert(climb_step(spread.rows[i], c.rows[i]));
        assert(spread.unblocked.contains(b.tasks[i].id) <==> b.tasks[i].status
            != StatusKind::Pending && spread.rows[i].status == StatusKind::Pending);
        assert(spread.failed.contains(b.tasks[i].id) <==> b.tasks[i].status != StatusKind::Failure
            && spread.rows[i].status == StatusKind::Failure);
        assert(gone.contains(spread.rows[i].id) <==> spread.rows[i].status != StatusKind::Canceled
            && top.rows[i].status == StatusKind::Canceled);
        assert(row_deps_ok(spread.rows, b.links, none, spread.rows[i]));
        if spread.rows[i].status == StatusKind::Pending {
            lemma_counters_at_zero(spread.rows, b.links, i);
        }
        lemma_moves_count(before, r, id, StatusKind::Pending);
        lemma_moves_count(before, r, id, StatusKind::Failure);
        lemma_moves_count(before, r, id, StatusKind::Canceled);
        if a.tasks[i].id != id {
            assert(b.tasks[i] == a.tasks[i]);
        }
    }
    assert forall|i: int| 0 <= i < f.len() implies (#[trigger] f[i]).id == b.tasks[i].id && f[i].id
        == spread.rows[i].id by {
        assert(propagation_step(b.tasks[i], spread.rows[i]));
        assert(climb_step(spread.rows[i], c.rows[i]));
    }
    assert forall|x: u128| #[trigger] spread.unblocked.contains(x) implies exists|i: int|
        0 <= i < f.len() && #[trigger] f[i].id == x by {
        let i = choose|i: int| 0 <= i < b.tasks.len() && #[trigger] b.tasks[i].id == x;
        assert(f[i].id == x);
    }
    assert forall|x: u128| #[trigger] spread.failed.contains(x) implies exists|i: int|
        0 <= i < f.len() && #[trigger] f[i].id == x by {
        let i = choose|i: int| 0 <= i < b.tasks.len() && #[trigger] b.tasks[i].id == x;
        assert(f[i].id == x);
    }
    assert forall|x: u128| #[trigger] gone.contains(x) implies exists|i: int|
        0 <= i < f.len() && #[trigger] f[i].id == x by {
        let i = choose|i: int| 0 <= i < spread.rows.len() && #[trigger] spread.rows[i].id == x;
        assert(f[i].id == x);
    }
    lemma_all_moves_count(before, f, id, StatusKind::Pending);
    lemma_all_moves_count(before, f, id, StatusKind::Failure);
    lemma_all_moves_count(before, f, id, StatusKind::Canceled);
    lemma_listed(f, came_to(before, id, StatusKind::Pending), spread.unblocked);
    lemma_listed(f, came_to(before, id, StatusKind::Failure), spread.failed);
    lemma_listed(f, came_to(before, id, StatusKind::Canceled), gone);
}

/// Other tasks are counted by what became of them: each that became unblocked, each
/// that failed and each that was canceled, by one.
pub proof fn others_are_counted(t: Tally, cause: Cause, id: u128, changes: Seq<StatusChange>)
    requires
        target(cause) == Some(id),
    ensures
        ({
            let after = all_noted(t, cause, changes);
            &&& after.unblocked == counted_up(
                t.unblocked,
                count(changes, others_to(id, StatusKind::Pending)),
            )
            &&& after.failed == counted_up(
                t.failed,
                count(changes, others_to(id, StatusKind::Failure)),
            )
            &&& after.dead_ends == counted_up(
                t.dead_ends,
                count(changes, others_to(id, StatusKind::Canceled)),
            )
        }),
    decreases changes.len(),
{
    if changes.len() > 0 {
        others_are_counted(t, cause, id, changes.drop_last());
    }
}

} // verus!
