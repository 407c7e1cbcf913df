//! What propagation and dead-end cancellation keep true of the whole graph.

use crate::models::{Link, StatusKind, TaskRow};
use crate::tally::{
    count, ids_where, lemma_count_filter, lemma_count_less, lemma_count_same, lemma_count_split,
    lemma_count_zero, lemma_filter_has, lemma_ids_where_has,
};
use crate::workers::propagation::{
    becomes, cascade, cascade_row, climb, dead_end, dead_end_canceled, dead_end_passed,
    dead_end_row, deps_ok, direct_fail_row, has_live_child, lemma_cascade_shrinks,
    lemma_climb_shrinks, links_from, live, propagation, reached_softly, required_by, row_deps_ok,
    settle_row, soft_into, unfinished, unique_ids, unique_links, waits_for, waits_for_success,
};
use vstd::prelude::*;

verus! {

/// What a propagation may do to one row. A row that is not blocked is left
/// alone; a blocked one stays in its status, fails, or, from `Waiting` only,
/// becomes `Pending`. Nothing but the status, the counters and the record of the
/// failure changes.
pub open spec fn propagation_step(a: TaskRow, b: TaskRow) -> bool {
    &&& !a.status.blocked() ==> b == a
    &&& b == TaskRow {
        status: b.status,
        wait_success: b.wait_success,
        wait_finished: b.wait_finished,
        failure_reason: b.failure_reason,
        ended_at: b.ended_at,
        ..a
    }
    &&& b.status == a.status || b.status == StatusKind::Failure || (a.status == StatusKind::Waiting
        && b.status == StatusKind::Pending)
    &&& b.status != StatusKind::Failure ==> b.failure_reason == a.failure_reason && b.ended_at
        == a.ended_at
    &&& b.status == StatusKind::Failure && a.status != StatusKind::Failure ==> b.ended_at is Some
        && b.failure_reason is Some
}

/// [`propagation_step`] on every row.
pub open spec fn propagation_steps(a: Seq<TaskRow>, b: Seq<TaskRow>) -> bool {
    &&& a.len() == b.len()
    &&& forall|i: int| 0 <= i < a.len() ==> propagation_step(#[trigger] a[i], b[i])
}

/// `ids` lists, without repetition, the tasks that moved into `status`.
pub open spec fn lists_moves(
    a: Seq<TaskRow>,
    b: Seq<TaskRow>,
    status: StatusKind,
    ids: Seq<u128>,
) -> bool {
    &&& ids.no_duplicates()
    &&& forall|i: int|
        0 <= i < a.len() ==> (ids.contains((#[trigger] a[i]).id) <==> a[i].status != status
            && b[i].status == status)
    &&& forall|id: u128| #[trigger]
        ids.contains(id) ==> exists|i: int| 0 <= i < a.len() && #[trigger] a[i].id == id
}

/// Selecting rows with distinct identifiers yields distinct identifiers.
pub proof fn lemma_ids_where_distinct(rows: Seq<TaskRow>, p: spec_fn(TaskRow) -> bool)
    requires
        unique_ids(rows),
    ensures
        ids_where(rows, p).no_duplicates(),
    decreases rows.len(),
{
    reveal(Seq::filter);
    if rows.len() > 0 {
        let n = rows.len() - 1;
        let init = rows.drop_last();
        assert forall|i: int, j: int|
            0 <= i < init.len() && 0 <= j < init.len() && #[trigger] init[i].id
                == #[trigger] init[j].id implies i == j by {
            assert(rows[i].id == rows[j].id);
        }
        lemma_ids_where_distinct(init, p);
        let sub = ids_where(init, p);
        if p(rows.last()) {
            lemma_ids_where_has(init, p, rows[n].id);
            assert(!sub.contains(rows[n].id)) by {
                if sub.contains(rows[n].id) {
                    let i = choose|i: int|
                        0 <= i < init.len() && #[trigger] init[i].id == rows[n].id && p(init[i]);
                    assert(rows[i].id == rows[n].id);
                }
            }
            assert(ids_where(rows, p) =~= sub.push(rows[n].id));
            assert forall|i: int, j: int|
                0 <= i < sub.len() + 1 && 0 <= j < sub.len() + 1 && i != j implies sub.push(
                rows[n].id,
            )[i] != sub.push(rows[n].id)[j] by {
                if i < sub.len() && j < sub.len() {
                } else if i < sub.len() {
                    assert(sub.contains(sub[i]));
                } else {
                    assert(sub.contains(sub[j]));
                }
            }
        }
    }
}

/// A per-row step lists its moves.
proof fn lemma_step_lists(a: Seq<TaskRow>, step: spec_fn(TaskRow) -> TaskRow, status: StatusKind)
    requires
        unique_ids(a),
    ensures
        lists_moves(a, a.map_values(step), status, ids_where(a, becomes(step, status))),
{
    let p = becomes(step, status);
    let ids = ids_where(a, p);
    lemma_ids_where_distinct(a, p);
    assert forall|i: int| 0 <= i < a.len() implies (ids.contains((#[trigger] a[i]).id)
        <==> a[i].status != status && a.map_values(step)[i].status == status) by {
        lemma_ids_where_has(a, p, a[i].id);
    }
    assert forall|id: u128| #[trigger] ids.contains(id) implies exists|i: int|
        0 <= i < a.len() && #[trigger] a[i].id == id by {
        lemma_ids_where_has(a, p, id);
    }
}

/// Identifiers survive a propagation, so they stay distinct.
proof fn lemma_steps_unique(a: Seq<TaskRow>, b: Seq<TaskRow>)
    requires
        unique_ids(a),
        propagation_steps(a, b),
    ensures
        unique_ids(b),
{
    assert forall|i: int, j: int|
        0 <= i < b.len() && 0 <= j < b.len() && #[trigger] b[i].id
            == #[trigger] b[j].id implies i == j by {
        assert(propagation_step(a[i], b[i]) && propagation_step(a[j], b[j]));
        assert(a[i].id == a[j].id);
    }
}

/// Two propagations in a row are one.
proof fn lemma_steps_compose(
    a: Seq<TaskRow>,
    b: Seq<TaskRow>,
    c: Seq<TaskRow>,
    s: StatusKind,
    ab: Seq<u128>,
    bc: Seq<u128>,
)
    requires
        propagation_steps(a, b),
        propagation_steps(b, c),
        s == StatusKind::Failure || s == StatusKind::Pending,
        lists_moves(a, b, s, ab),
        lists_moves(b, c, s, bc),
    ensures
        propagation_steps(a, c),
        lists_moves(a, c, s, ab + bc),
{
    let ac = ab + bc;
    assert forall|i: int| 0 <= i < a.len() implies propagation_step(#[trigger] a[i], c[i]) by {
        assert(propagation_step(a[i], b[i]) && propagation_step(b[i], c[i]));
    }
    assert forall|i: int| 0 <= i < a.len() implies (ac.contains((#[trigger] a[i]).id)
        <==> a[i].status != s && c[i].status == s) by {
        assert(propagation_step(a[i], b[i]) && propagation_step(b[i], c[i]));
        assert(b[i].id == a[i].id);
        lemma_concat_has(ab, bc, a[i].id);
        assert(ab.contains(a[i].id) <==> a[i].status != s && b[i].status == s);
        assert(bc.contains(b[i].id) <==> b[i].status != s && c[i].status == s);
    }
    assert forall|id: u128| #[trigger] ac.contains(id) implies exists|i: int|
        0 <= i < a.len() && #[trigger] a[i].id == id by {
        lemma_concat_has(ab, bc, id);
        if bc.contains(id) {
            let i = choose|i: int| 0 <= i < b.len() && #[trigger] b[i].id == id;
            assert(propagation_step(a[i], b[i]));
            assert(a[i].id == id);
        }
    }
    assert forall|i: int, j: int| 0 <= i < ac.len() && 0 <= j < ac.len() && i != j implies ac[i]
        != ac[j] by {
        if ac[i] == ac[j] {
            let (x, y) = if i < j {
                (i, j)
            } else {
                (j, i)
            };
            if y >= ab.len() && x < ab.len() {
                let id = ab[x];
                assert(ab.contains(id));
                assert(bc[y - ab.len()] == id);
                assert(bc.contains(id));
                let k = choose|k: int| 0 <= k < a.len() && #[trigger] a[k].id == id;
                assert(propagation_step(a[k], b[k]));
                assert(b[k].id == id);
                assert(ab.contains(a[k].id));
                assert(bc.contains(b[k].id));
            }
        }
    }
}

pub proof fn lemma_concat_has(a: Seq<u128>, b: Seq<u128>, x: u128)
    ensures
        (a + b).contains(x) <==> a.contains(x) || b.contains(x),
{
    if a.contains(x) {
        let i = choose|i: int| 0 <= i < a.len() && a[i] == x;
        assert((a + b)[i] == x);
    }
    if b.contains(x) {
        let i = choose|i: int| 0 <= i < b.len() && b[i] == x;
        assert((a + b)[a.len() + i] == x);
    }
}

/// A failure cascade changes only blocked tasks, reports every task it failed
/// and every task it unblocked, and leaves no blocked task that requires a
/// failed one.
pub proof fn cascade_frame(rows: Seq<TaskRow>, links: Seq<Link>, frontier: Seq<u128>, now: int)
    requires
        unique_ids(rows),
    ensures
        ({
            let s = cascade(rows, links, frontier, now);
            &&& propagation_steps(rows, s.rows)
            &&& unique_ids(s.rows)
            &&& lists_moves(rows, s.rows, StatusKind::Failure, s.failed)
            &&& lists_moves(rows, s.rows, StatusKind::Pending, s.unblocked)
            &&& forall|i: int|
                0 <= i < rows.len() && (#[trigger] s.rows[i]).status.blocked() ==> !required_by(
                    links_from(links, frontier + s.failed),
                    s.rows[i].id,
                )
        }),
    decreases count(rows, |r: TaskRow| r.status.blocked()),
{
    let out = links_from(links, frontier);
    let step = cascade_row(out, now);
    let after = rows.map_values(step);
    let failed = ids_where(rows, becomes(step, StatusKind::Failure));
    let unblocked = ids_where(rows, becomes(step, StatusKind::Pending));
    let s = cascade(rows, links, frontier, now);
    assert forall|i: int| 0 <= i < rows.len() implies propagation_step(
        #[trigger] rows[i],
        after[i],
    ) by {
        assert(after[i] == step(rows[i]));
    }
    lemma_steps_unique(rows, after);
    lemma_step_lists(rows, step, StatusKind::Failure);
    lemma_step_lists(rows, step, StatusKind::Pending);
    if failed.len() == 0 {
        assert(frontier + s.failed =~= frontier);
    } else {
        lemma_cascade_shrinks(rows, out, now);
        cascade_frame(after, links, failed, now);
        let d = cascade(after, links, failed, now);
        lemma_steps_compose(rows, after, d.rows, StatusKind::Failure, failed, d.failed);
        lemma_steps_compose(rows, after, d.rows, StatusKind::Pending, unblocked, d.unblocked);
        assert forall|i: int| 0 <= i < rows.len() && (
        #[trigger] s.rows[i]).status.blocked() implies !required_by(
            links_from(links, frontier + s.failed),
            s.rows[i].id,
        ) by {
            let c = s.rows[i].id;
            let all = links_from(links, frontier + s.failed);
            assert(propagation_step(after[i], d.rows[i]));
            assert(propagation_step(rows[i], after[i]));
            if required_by(all, c) {
                let k = choose|k: int|
                    0 <= k < all.len() && (#[trigger] all[k]).child_id == c
                        && all[k].requires_success;
                let l = all[k];
                assert(all.contains(l));
                lemma_filter_has(links, |l: Link| (frontier + s.failed).contains(l.parent_id), l);
                lemma_concat_has(frontier, s.failed, l.parent_id);
                if frontier.contains(l.parent_id) {
                    lemma_required(links, frontier, l);
                } else {
                    assert(s.failed == failed + d.failed);
                    lemma_required(links, failed + d.failed, l);
                }
            }
        }
    }
}

/// A link from one of `parents` that requires success makes its child required.
proof fn lemma_required(links: Seq<Link>, parents: Seq<u128>, l: Link)
    requires
        links.contains(l),
        parents.contains(l.parent_id),
        l.requires_success,
    ensures
        required_by(links_from(links, parents), l.child_id),
{
    let out = links_from(links, parents);
    lemma_filter_has(links, |l: Link| parents.contains(l.parent_id), l);
    let k = choose|k: int| 0 <= k < out.len() && out[k] == l;
    assert(out[k].child_id == l.child_id && out[k].requires_success);
}

/// A propagation changes only blocked tasks: terminal tasks keep every column,
/// and a `Paused` task never becomes `Pending`. It reports, each once, exactly
/// the tasks it failed and the tasks it unblocked. After a failed or canceled
/// parent, no task stays blocked that requires it or a task it failed.
pub proof fn propagation_frame(
    rows: Seq<TaskRow>,
    links: Seq<Link>,
    parent: u128,
    status: StatusKind,
    now: int,
)
    requires
        unique_ids(rows),
    ensures
        ({
            let s = propagation(rows, links, parent, status, now);
            &&& propagation_steps(rows, s.rows)
            &&& unique_ids(s.rows)
            &&& lists_moves(rows, s.rows, StatusKind::Failure, s.failed)
            &&& lists_moves(rows, s.rows, StatusKind::Pending, s.unblocked)
            &&& status == StatusKind::Failure || status == StatusKind::Canceled ==> forall|i: int|
                0 <= i < rows.len() && (#[trigger] s.rows[i]).status.blocked() ==> !required_by(
                    links_from(links, seq![parent] + s.failed),
                    s.rows[i].id,
                )
        }),
{
    let s = propagation(rows, links, parent, status, now);
    let out = links_from(links, seq![parent]);
    let succeeded = status == StatusKind::Success;
    let failed = status == StatusKind::Failure || status == StatusKind::Canceled;
    let settle = settle_row(out, succeeded, failed);
    if failed {
        let direct = direct_fail_row(out, parent, now);
        let mid = rows.map_values(direct);
        let first = ids_where(rows, becomes(direct, StatusKind::Failure));
        let below = cascade(mid, links, first, now);
        assert forall|i: int| 0 <= i < rows.len() implies propagation_step(
            #[trigger] rows[i],
            mid[i],
        ) by {
            assert(mid[i] == direct(rows[i]));
        }
        lemma_steps_unique(rows, mid);
        lemma_step_lists(rows, direct, StatusKind::Failure);
        lemma_step_lists(rows, direct, StatusKind::Pending);
        lemma_no_moves(rows, becomes(direct, StatusKind::Pending));
        cascade_frame(mid, links, first, now);
        assert forall|i: int| 0 <= i < below.rows.len() implies propagation_step(
            #[trigger] below.rows[i],
            s.rows[i],
        ) by {
            assert(s.rows[i] == settle(below.rows[i]));
        }
        lemma_step_lists(below.rows, settle, StatusKind::Failure);
        lemma_no_moves(below.rows, becomes(settle, StatusKind::Failure));
        lemma_step_lists(below.rows, settle, StatusKind::Pending);
        let none = Seq::<u128>::empty();
        lemma_steps_compose(rows, mid, below.rows, StatusKind::Failure, first, below.failed);
        lemma_steps_compose(
            rows,
            below.rows,
            s.rows,
            StatusKind::Failure,
            first + below.failed,
            none,
        );
        assert(first + below.failed + none =~= s.failed);
        lemma_steps_compose(rows, mid, below.rows, StatusKind::Pending, none, below.unblocked);
        assert(none + below.unblocked =~= below.unblocked);
        let last = ids_where(below.rows, becomes(settle, StatusKind::Pending));
        lemma_steps_compose(
            rows,
            below.rows,
            s.rows,
            StatusKind::Pending,
            below.unblocked,
            last,
        );
        lemma_steps_unique(rows, s.rows);
        assert forall|i: int| 0 <= i < rows.len() && (
        #[trigger] s.rows[i]).status.blocked() implies !required_by(
            links_from(links, seq![parent] + s.failed),
            s.rows[i].id,
        ) by {
            let c = s.rows[i].id;
            let all = links_from(links, seq![parent] + s.failed);
            assert(propagation_step(below.rows[i], s.rows[i]));
            assert(propagation_step(mid[i], below.rows[i]));
            assert(propagation_step(rows[i], mid[i]));
            if required_by(all, c) {
                let k = choose|k: int|
                    0 <= k < all.len() && (#[trigger] all[k]).child_id == c
                        && all[k].requires_success;
                let l = all[k];
                assert(all.contains(l));
                lemma_filter_has(
                    links,
                    |l: Link| (seq![parent] + s.failed).contains(l.parent_id),
                    l,
                );
                lemma_concat_has(seq![parent], s.failed, l.parent_id);
                if seq![parent].contains(l.parent_id) {
                    lemma_required(links, seq![parent], l);
                } else {
                    lemma_required(links, first + below.failed, l);
                }
            }
        }
    } else {
        assert forall|i: int| 0 <= i < rows.len() implies propagation_step(
            #[trigger] rows[i],
            s.rows[i],
        ) by {
            assert(s.rows[i] == settle(rows[i]));
        }
        lemma_steps_unique(rows, s.rows);
        lemma_step_lists(rows, settle, StatusKind::Failure);
        lemma_no_moves(rows, becomes(settle, StatusKind::Failure));
        lemma_step_lists(rows, settle, StatusKind::Pending);
    }
}

/// For the tasks that depend on it, the cancellation of a task is its failure.
pub proof fn cancellation_spreads_like_failure(
    rows: Seq<TaskRow>,
    links: Seq<Link>,
    parent: u128,
    now: int,
)
    ensures
        propagation(rows, links, parent, StatusKind::Canceled, now) == propagation(
            rows,
            links,
            parent,
            StatusKind::Failure,
            now,
        ),
{
}

/// Nothing is listed where nothing satisfies the predicate.
proof fn lemma_no_moves(rows: Seq<TaskRow>, p: spec_fn(TaskRow) -> bool)
    requires
        forall|i: int| 0 <= i < rows.len() ==> !p(#[trigger] rows[i]),
    ensures
        ids_where(rows, p) == Seq::<u128>::empty(),
    decreases rows.len(),
{
    reveal(Seq::filter);
    if rows.len() > 0 {
        assert(rows[rows.len() - 1] == rows.last());
        assert forall|i: int| 0 <= i < rows.drop_last().len() implies !p(
            #[trigger] rows.drop_last()[i],
        ) by {
            assert(rows[i] == rows.drop_last()[i]);
        }
        lemma_no_moves(rows.drop_last(), p);
    }
    assert(ids_where(rows, p) =~= Seq::empty());
}

// ---------------------------------------------------------------------------
// Counters agree with the graph
// ---------------------------------------------------------------------------

/// One cascade level keeps the counters in agreement with the graph: afterwards
/// the tasks it failed are the ones still to be propagated.
proof fn lemma_cascade_level_deps(
    rows: Seq<TaskRow>,
    links: Seq<Link>,
    base: Seq<u128>,
    frontier: Seq<u128>,
    now: int,
)
    requires
        unique_ids(rows),
        deps_ok(rows, links, base + frontier),
        forall|id: u128| #[trigger] base.contains(id) ==> !live(rows, id),
        forall|id: u128| #[trigger]
            frontier.contains(id) ==> !live(rows, id) && !base.contains(id),
    ensures
        ({
            let step = cascade_row(links_from(links, frontier), now);
            let after = rows.map_values(step);
            let next = ids_where(rows, becomes(step, StatusKind::Failure));
            &&& unique_ids(after)
            &&& deps_ok(after, links, base + next)
            &&& forall|id: u128| #[trigger] base.contains(id) ==> !live(after, id)
            &&& forall|id: u128| #[trigger]
                next.contains(id) ==> !live(after, id) && !base.contains(id)
        }),
{
    let out = links_from(links, frontier);
    let step = cascade_row(out, now);
    let after = rows.map_values(step);
    let fails = becomes(step, StatusKind::Failure);
    let next = ids_where(rows, fails);
    assert forall|i: int, j: int|
        0 <= i < after.len() && 0 <= j < after.len() && #[trigger] after[i].id
            == #[trigger] after[j].id implies i == j by {
        assert(after[i].id == rows[i].id && after[j].id == rows[j].id);
    }
    assert forall|id: u128| live(after, id) implies #[trigger] live(rows, id) by {
        let w = choose|w: int|
            0 <= w < after.len() && #[trigger] after[w].id == id && !after[w].status.terminal();
        assert(rows[w].id == id && !rows[w].status.terminal());
    }
    assert forall|id: u128| #[trigger] next.contains(id) implies !live(after, id)
        && !base.contains(id) by {
        lemma_ids_where_has(rows, fails, id);
        let w = choose|w: int| 0 <= w < rows.len() && #[trigger] rows[w].id == id && fails(rows[w]);
        assert(live(rows, id));
        if live(after, id) {
            let v = choose|v: int|
                0 <= v < after.len() && #[trigger] after[v].id == id && !after[v].status.terminal();
            assert(rows[v].id == rows[w].id);
        }
    }
    // A parent stays unfinished exactly when it was, except for the frontier.
    assert forall|id: u128| #[trigger]
        unfinished(after, base + next, id) == (unfinished(rows, base + frontier, id)
            && !frontier.contains(id)) by {
        lemma_concat_has(base, next, id);
        lemma_concat_has(base, frontier, id);
        lemma_ids_where_has(rows, fails, id);
        if live(rows, id) && !live(after, id) {
            let w = choose|w: int|
                0 <= w < rows.len() && #[trigger] rows[w].id == id && !rows[w].status.terminal();
            assert(after[w].id == id);
            assert(fails(rows[w]));
        }
        if next.contains(id) {
            let w = choose|w: int|
                0 <= w < rows.len() && #[trigger] rows[w].id == id && fails(rows[w]);
            assert(live(rows, id));
        }
    }
    assert forall|i: int| 0 <= i < after.len() implies row_deps_ok(
        after,
        links,
        base + next,
        #[trigger] after[i],
    ) by {
        let r = rows[i];
        let c = r.id;
        assert(row_deps_ok(rows, links, base + frontier, r));
        assert(after[i] == step(r));
        if !after[i].status.terminal() {
            let from = |l: Link| frontier.contains(l.parent_id);
            let q0 = waits_for(rows, base + frontier, c);
            let q1 = waits_for(after, base + next, c);
            let used = |l: Link| from(l) && soft_into(c)(l);
            lemma_count_filter(links, from, soft_into(c));
            let s0 = waits_for_success(rows, base + frontier, c);
            let s1 = waits_for_success(after, base + next, c);
            if r.status.blocked() {
                assert forall|k: int| 0 <= k < links.len() && from(
                    #[trigger] links[k],
                ) && links[k].child_id == c implies !links[k].requires_success by {
                    if links[k].requires_success {
                        assert(links.contains(links[k]));
                        lemma_required(links, frontier, links[k]);
                    }
                }
                assert forall|k: int|
                    0 <= k < links.len() implies (#[trigger] q0(links[k]) == (q1(links[k]) || used(
                    links[k],
                ))) && !(q1(links[k]) && used(links[k])) by {
                    let p = links[k].parent_id;
                    assert(unfinished(after, base + next, p) == (unfinished(
                        rows,
                        base + frontier,
                        p,
                    ) && !frontier.contains(p)));
                    lemma_concat_has(base, frontier, p);
                }
                lemma_count_split(links, q0, q1, used);
                assert forall|k: int| 0 <= k < links.len() implies #[trigger] s0(links[k]) == s1(
                    links[k],
                ) by {
                    let p = links[k].parent_id;
                    assert(unfinished(after, base + next, p) == (unfinished(
                        rows,
                        base + frontier,
                        p,
                    ) && !frontier.contains(p)));
                }
                lemma_count_same(links, s0, links, s1);
                assert forall|k: int| 0 <= k < links.len() implies (#[trigger] s1(links[k]) ==> q1(
                    links[k],
                )) by {}
                lemma_count_less(links, s1, links, q1);
            } else {
                // Nothing was outstanding, so nothing is.
                assert forall|k: int| 0 <= k < links.len() implies (#[trigger] q1(links[k]) ==> q0(
                    links[k],
                )) by {
                    let p = links[k].parent_id;
                    assert(unfinished(after, base + next, p) == (unfinished(
                        rows,
                        base + frontier,
                        p,
                    ) && !frontier.contains(p)));
                }
                lemma_count_less(links, q1, links, q0);
                assert forall|k: int| 0 <= k < links.len() implies (#[trigger] s0(links[k]) ==> q0(
                    links[k],
                )) by {}
                lemma_count_less(links, s0, links, q0);
                assert forall|k: int| 0 <= k < links.len() implies (#[trigger] s1(links[k]) ==> q1(
                    links[k],
                )) by {}
                lemma_count_less(links, s1, links, q1);
            }
        }
    }
}

/// A failure cascade keeps the counters in agreement with the graph.
proof fn lemma_cascade_deps(
    rows: Seq<TaskRow>,
    links: Seq<Link>,
    base: Seq<u128>,
    frontier: Seq<u128>,
    now: int,
)
    requires
        unique_ids(rows),
        deps_ok(rows, links, base + frontier),
        forall|id: u128| #[trigger] base.contains(id) ==> !live(rows, id),
        forall|id: u128| #[trigger]
            frontier.contains(id) ==> !live(rows, id) && !base.contains(id),
    ensures
        deps_ok(cascade(rows, links, frontier, now).rows, links, base),
        forall|id: u128| #[trigger]
            base.contains(id) ==> !live(cascade(rows, links, frontier, now).rows, id),
    decreases count(rows, |r: TaskRow| r.status.blocked()),
{
    let out = links_from(links, frontier);
    let step = cascade_row(out, now);
    let after = rows.map_values(step);
    let failed = ids_where(rows, becomes(step, StatusKind::Failure));
    lemma_cascade_level_deps(rows, links, base, frontier, now);
    if failed.len() == 0 {
        assert(base + failed =~= base);
    } else {
        lemma_cascade_shrinks(rows, out, now);
        lemma_cascade_deps(after, links, base, failed, now);
    }
}

/// The links from `p` to `c`.
spec fn between(p: u128, c: u128) -> spec_fn(Link) -> bool {
    |l: Link| l.parent_id == p && l.child_id == c
}

/// At most one link joins two tasks.
proof fn lemma_between(links: Seq<Link>, p: u128, c: u128)
    requires
        unique_links(links),
    ensures
        count(links, between(p, c)) <= 1,
        count(links, between(p, c)) == 1 <==> exists|k: int|
            0 <= k < links.len() && between(p, c)(#[trigger] links[k]),
    decreases links.len(),
{
    let q = between(p, c);
    lemma_count_zero(links, q);
    if links.len() > 0 {
        let n = links.len() - 1;
        let init = links.drop_last();
        assert forall|i: int, j: int|
            #![trigger init[i], init[j]]
            0 <= i < init.len() && 0 <= j < init.len() && init[i].parent_id == init[j].parent_id
                && init[i].child_id == init[j].child_id implies i == j by {
            assert(links[i] == init[i] && links[j] == init[j]);
        }
        lemma_between(init, p, c);
        if q(links[n]) {
            lemma_count_zero(init, q);
            assert forall|i: int| 0 <= i < init.len() implies !#[trigger] q(init[i]) by {
                assert(links[i] == init[i]);
            }
            assert(q(links[n]));
        }
    }
}

/// The outgoing links of one parent.
proof fn lemma_out_of_one(links: Seq<Link>, p: u128, c: u128)
    ensures
        required_by(links_from(links, seq![p]), c) <==> exists|k: int|
            0 <= k < links.len() && between(p, c)(#[trigger] links[k])
                && links[k].requires_success,
        reached_softly(links_from(links, seq![p]), c) <==> exists|k: int|
            0 <= k < links.len() && between(p, c)(#[trigger] links[k])
                && !links[k].requires_success,
{
    let out = links_from(links, seq![p]);
    let from = |l: Link| seq![p].contains(l.parent_id);
    assert forall|x: u128| #[trigger] seq![p].contains(x) <==> x == p by {
        assert(seq![p][0] == p);
    }
    if required_by(out, c) {
        let k = choose|k: int|
            0 <= k < out.len() && (#[trigger] out[k]).child_id == c && out[k].requires_success;
        assert(out.contains(out[k]));
        lemma_filter_has(links, from, out[k]);
        let j = choose|j: int| 0 <= j < links.len() && links[j] == out[k];
        assert(between(p, c)(links[j]));
    }
    if reached_softly(out, c) {
        let k = choose|k: int|
            0 <= k < out.len() && (#[trigger] out[k]).child_id == c && !out[k].requires_success;
        assert(out.contains(out[k]));
        lemma_filter_has(links, from, out[k]);
        let j = choose|j: int| 0 <= j < links.len() && links[j] == out[k];
        assert(between(p, c)(links[j]));
    }
    assert forall|k: int| 0 <= k < links.len() && between(p, c)(#[trigger] links[k]) implies (
    links[k].requires_success ==> required_by(out, c)) && (!links[k].requires_success
        ==> reached_softly(out, c)) by {
        assert(links.contains(links[k]));
        lemma_filter_has(links, from, links[k]);
        let j = choose|j: int| 0 <= j < out.len() && out[j] == links[k];
        assert(out[j].child_id == c);
    }
}

/// Settling the direct children of a finished parent closes its propagation.
proof fn lemma_settle_deps(
    rows: Seq<TaskRow>,
    links: Seq<Link>,
    parent: u128,
    succeeded: bool,
    failed: bool,
)
    requires
        unique_ids(rows),
        unique_links(links),
        succeeded == !failed,
        deps_ok(rows, links, seq![parent]),
        !live(rows, parent),
        failed ==> forall|i: int|
            0 <= i < rows.len() && (#[trigger] rows[i]).status.blocked() ==> !required_by(
                links_from(links, seq![parent]),
                rows[i].id,
            ),
    ensures
        deps_ok(
            rows.map_values(settle_row(links_from(links, seq![parent]), succeeded, failed)),
            links,
            Seq::empty(),
        ),
{
    let out = links_from(links, seq![parent]);
    let step = settle_row(out, succeeded, failed);
    let after = rows.map_values(step);
    let open = seq![parent];
    let none = Seq::<u128>::empty();
    assert forall|x: u128| #[trigger] open.contains(x) <==> x == parent by {
        assert(open[0] == parent);
    }
    assert forall|id: u128| #[trigger] live(after, id) == live(rows, id) by {
        if live(after, id) {
            let w = choose|w: int|
                0 <= w < after.len() && #[trigger] after[w].id == id && !after[w].status.terminal();
            assert(rows[w].id == id && !rows[w].status.terminal());
        }
        if live(rows, id) {
            let w = choose|w: int|
                0 <= w < rows.len() && #[trigger] rows[w].id == id && !rows[w].status.terminal();
            assert(after[w].id == id && !after[w].status.terminal());
        }
    }
    assert forall|i: int| 0 <= i < after.len() implies row_deps_ok(
        after,
        links,
        none,
        #[trigger] after[i],
    ) by {
        let r = rows[i];
        let c = r.id;
        assert(row_deps_ok(rows, links, open, r));
        assert(after[i] == step(r));
        if !after[i].status.terminal() {
            let q0 = waits_for(rows, open, c);
            let q1 = waits_for(after, none, c);
            let s0 = waits_for_success(rows, open, c);
            let s1 = waits_for_success(after, none, c);
            let b = between(parent, c);
            let bs = |l: Link| b(l) && l.requires_success;
            lemma_between(links, parent, c);
            lemma_out_of_one(links, parent, c);
            assert forall|k: int|
                0 <= k < links.len() implies (#[trigger] q0(links[k]) == (q1(links[k]) || b(
                links[k],
            ))) && !(q1(links[k]) && b(links[k])) by {
                assert(live(after, links[k].parent_id) == live(rows, links[k].parent_id));
            }
            lemma_count_split(links, q0, q1, b);
            assert forall|k: int|
                0 <= k < links.len() implies (#[trigger] s0(links[k]) == (s1(links[k]) || bs(
                links[k],
            ))) && !(s1(links[k]) && bs(links[k])) by {
                assert(live(after, links[k].parent_id) == live(rows, links[k].parent_id));
            }
            lemma_count_split(links, s0, s1, bs);
            assert forall|k: int| 0 <= k < links.len() implies (#[trigger] bs(links[k]) ==> b(
                links[k],
            )) by {}
            lemma_count_less(links, bs, links, b);
            lemma_count_zero(links, bs);
            lemma_count_zero(links, b);
            assert forall|k: int| 0 <= k < links.len() implies (#[trigger] s1(links[k]) ==> q1(
                links[k],
            )) by {}
            lemma_count_less(links, s1, links, q1);
            if required_by(out, c) {
                let k = choose|k: int|
                    0 <= k < links.len() && b(#[trigger] links[k]) && links[k].requires_success;
                assert(bs(links[k]));
                if reached_softly(out, c) {
                    let j = choose|j: int|
                        0 <= j < links.len() && b(#[trigger] links[j])
                            && !links[j].requires_success;
                    assert(links[k].parent_id == links[j].parent_id);
                }
            } else {
                assert forall|k: int| 0 <= k < links.len() implies !#[trigger] bs(links[k]) by {}
                if !reached_softly(out, c) {
                    assert forall|k: int| 0 <= k < links.len() implies !#[trigger] b(links[k]) by {}
                }
            }
        }
    }
}

/// Propagation keeps every task's counters equal to the numbers of its
/// unfinished parents, a `Waiting` task waiting for at least one of them, and a
/// task that is neither `Waiting` nor `Paused` waiting for none. Before the call
/// the children still count the finished parent; afterwards nothing is left to
/// propagate.
pub proof fn propagation_keeps_counters(
    rows: Seq<TaskRow>,
    links: Seq<Link>,
    parent: u128,
    status: StatusKind,
    now: int,
)
    requires
        unique_ids(rows),
        unique_links(links),
        status.terminal(),
        !live(rows, parent),
        deps_ok(rows, links, seq![parent]),
    ensures
        deps_ok(propagation(rows, links, parent, status, now).rows, links, Seq::empty()),
{
    let out = links_from(links, seq![parent]);
    let succeeded = status == StatusKind::Success;
    let failed = !succeeded;
    let open = seq![parent];
    assert forall|x: u128| #[trigger] open.contains(x) <==> x == parent by {
        assert(open[0] == parent);
    }
    if failed {
        let direct = direct_fail_row(out, parent, now);
        let fails = becomes(direct, StatusKind::Failure);
        let mid = rows.map_values(direct);
        let first = ids_where(rows, fails);
        let below = cascade(mid, links, first, now);
        assert forall|i: int, j: int|
            0 <= i < mid.len() && 0 <= j < mid.len() && #[trigger] mid[i].id
                == #[trigger] mid[j].id implies i == j by {
            assert(mid[i].id == rows[i].id && mid[j].id == rows[j].id);
        }
        assert forall|id: u128| live(mid, id) implies #[trigger] live(rows, id) by {
            let w = choose|w: int|
                0 <= w < mid.len() && #[trigger] mid[w].id == id && !mid[w].status.terminal();
            assert(rows[w].id == id && !rows[w].status.terminal());
        }
        assert forall|id: u128| #[trigger] first.contains(id) implies !live(mid, id)
            && !open.contains(id) by {
            lemma_ids_where_has(rows, fails, id);
            let w = choose|w: int|
                0 <= w < rows.len() && #[trigger] rows[w].id == id && fails(rows[w]);
            assert(live(rows, id));
            if live(mid, id) {
                let v = choose|v: int|
                    0 <= v < mid.len() && #[trigger] mid[v].id == id && !mid[v].status.terminal();
                assert(rows[v].id == rows[w].id);
            }
        }
        assert forall|id: u128| #[trigger]
            unfinished(mid, open + first, id) == unfinished(rows, open, id) by {
            lemma_concat_has(open, first, id);
            lemma_ids_where_has(rows, fails, id);
            if live(rows, id) && !live(mid, id) {
                let w = choose|w: int|
                    0 <= w < rows.len() && #[trigger] rows[w].id == id
                        && !rows[w].status.terminal();
                assert(mid[w].id == id);
                assert(fails(rows[w]));
            }
            if first.contains(id) {
                let w = choose|w: int|
                    0 <= w < rows.len() && #[trigger] rows[w].id == id && fails(rows[w]);
                assert(live(rows, id));
            }
        }
        assert forall|i: int| 0 <= i < mid.len() implies row_deps_ok(
            mid,
            links,
            open + first,
            #[trigger] mid[i],
        ) by {
            let c = rows[i].id;
            assert(row_deps_ok(rows, links, open, rows[i]));
            assert(mid[i] == direct(rows[i]));
            let q0 = waits_for(rows, open, c);
            let q1 = waits_for(mid, open + first, c);
            let s0 = waits_for_success(rows, open, c);
            let s1 = waits_for_success(mid, open + first, c);
            assert forall|k: int| 0 <= k < links.len() implies #[trigger] q0(links[k]) == q1(
                links[k],
            ) by {
                assert(unfinished(mid, open + first, links[k].parent_id) == unfinished(
                    rows,
                    open,
                    links[k].parent_id,
                ));
            }
            lemma_count_same(links, q0, links, q1);
            assert forall|k: int| 0 <= k < links.len() implies #[trigger] s0(links[k]) == s1(
                links[k],
            ) by {
                assert(unfinished(mid, open + first, links[k].parent_id) == unfinished(
                    rows,
                    open,
                    links[k].parent_id,
                ));
            }
            lemma_count_same(links, s0, links, s1);
        }
        lemma_cascade_deps(mid, links, open, first, now);
        cascade_frame(mid, links, first, now);
        assert(open.contains(parent));
        assert forall|i: int| 0 <= i < below.rows.len() && (
        #[trigger] below.rows[i]).status.blocked() implies !required_by(
            out,
            below.rows[i].id,
        ) by {
            assert(propagation_step(mid[i], below.rows[i]));
            assert(mid[i] == direct(rows[i]));
        }
        lemma_settle_deps(below.rows, links, parent, succeeded, failed);
    } else {
        lemma_settle_deps(rows, links, parent, succeeded, failed);
    }
}

// ---------------------------------------------------------------------------
// Dead ends
// ---------------------------------------------------------------------------

/// What a dead-end cancellation may do to one row: nothing, or cancel it where
/// it was not terminal.
pub open spec fn climb_step(a: TaskRow, b: TaskRow) -> bool {
    b == a || (!a.status.terminal() && b.status == StatusKind::Canceled && b == TaskRow {
        status: StatusKind::Canceled,
        failure_reason: b.failure_reason,
        ended_at: b.ended_at,
        last_updated: b.last_updated,
        ..a
    })
}

/// Dead-end cancellation only cancels live tasks, and only those with no live
/// child left; terminal tasks keep every column. It reports each canceled task
/// once, with whether it was active.
pub proof fn climb_frame(rows: Seq<TaskRow>, links: Seq<Link>, ids: Seq<u128>, now: int)
    requires
        unique_ids(rows),
    ensures
        ({
            let c = climb(rows, links, ids, now);
            &&& c.rows.len() == rows.len()
            &&& unique_ids(c.rows)
            &&& forall|i: int|
                0 <= i < rows.len() ==> climb_step(#[trigger] rows[i], c.rows[i]) && (c.rows[i]
                    != rows[i] ==> !has_live_child(c.rows, links, rows[i].id))
            &&& lists_moves(
                rows,
                c.rows,
                StatusKind::Canceled,
                c.canceled.map_values(
                    |a: crate::workers::propagation::CanceledAncestor| a.id,
                ),
            )
            &&& forall|k: int, i: int|
                #![trigger c.canceled[k], rows[i]]
                0 <= k < c.canceled.len() && 0 <= i < rows.len() && c.canceled[k].id == rows[i].id
                    ==> c.canceled[k].was_active == rows[i].status.active()
        }),
    decreases count(rows, |r: TaskRow| !r.status.terminal()),
{
    let p = dead_end(rows, links, ids);
    let canceled = dead_end_canceled(rows, links, ids);
    let getid = |a: crate::workers::propagation::CanceledAncestor| a.id;
    let whole = climb(rows, links, ids, now);
    let step = dead_end_row(rows, links, ids, now);
    let after = rows.map_values(step);
    lemma_step_lists(rows, step, StatusKind::Canceled);
    let moved = becomes(step, StatusKind::Canceled);
    lemma_filter_same(rows, p, moved);
    assert(canceled.map_values(getid) =~= ids_where(rows, moved));
    assert forall|k: int, i: int|
        #![trigger canceled[k], rows[i]]
        0 <= k < canceled.len() && 0 <= i < rows.len() && canceled[k].id
            == rows[i].id implies canceled[k].was_active == rows[i].status.active() by {
        let sel = rows.filter(p);
        assert(sel.contains(sel[k]));
        lemma_filter_has(rows, p, sel[k]);
        let j = choose|j: int| 0 <= j < rows.len() && rows[j] == sel[k];
        assert(rows[j].id == rows[i].id);
    }
    if canceled.len() == 0 {
        assert(rows.map_values(step) =~= rows) by {
            assert forall|i: int| 0 <= i < rows.len() implies step(rows[i]) == rows[i] by {
                if p(rows[i]) {
                    assert(rows.contains(rows[i]));
                    lemma_filter_has(rows, p, rows[i]);
                    assert(rows.filter(p).len() == 0);
                }
            }
        }
    } else {
        lemma_climb_shrinks(rows, links, ids, now);
        let next = ids_where(rows, dead_end_passed(rows, links, ids));
        assert forall|i: int, j: int|
            0 <= i < after.len() && 0 <= j < after.len() && #[trigger] after[i].id
                == #[trigger] after[j].id implies i == j by {
            assert(after[i].id == rows[i].id && after[j].id == rows[j].id);
        }
        climb_frame(after, links, next, now);
        let higher = climb(after, links, next, now);
        assert forall|id: u128| live(higher.rows, id) implies #[trigger] live(rows, id) by {
            let w = choose|w: int|
                0 <= w < higher.rows.len() && #[trigger] higher.rows[w].id == id
                    && !higher.rows[w].status.terminal();
            assert(climb_step(after[w], higher.rows[w]));
            assert(after[w] == step(rows[w]));
            assert(rows[w].id == id && !rows[w].status.terminal());
        }
        assert forall|i: int| 0 <= i < rows.len() implies climb_step(
            #[trigger] rows[i],
            whole.rows[i],
        ) && (whole.rows[i] != rows[i] ==> !has_live_child(whole.rows, links, rows[i].id)) by {
            assert(after[i] == step(rows[i]));
            assert(climb_step(after[i], higher.rows[i]));
            if whole.rows[i] != rows[i] && higher.rows[i] == after[i] {
                assert(p(rows[i]));
                if has_live_child(whole.rows, links, rows[i].id) {
                    let k = choose|k: int|
                        0 <= k < links.len() && (#[trigger] links[k]).parent_id == rows[i].id
                            && live(whole.rows, links[k].child_id);
                    assert(live(rows, links[k].child_id));
                    assert(has_live_child(rows, links, rows[i].id));
                }
            }
        }
        let ab = canceled.map_values(getid);
        let bc = higher.canceled.map_values(getid);
        let ac = whole.canceled.map_values(getid);
        assert(ac =~= ab + bc);
        let s = StatusKind::Canceled;
        assert forall|i: int| 0 <= i < rows.len() implies (ac.contains((#[trigger] rows[i]).id)
            <==> rows[i].status != s && whole.rows[i].status == s) by {
            assert(after[i] == step(rows[i]));
            assert(climb_step(after[i], higher.rows[i]));
            lemma_concat_has(ab, bc, rows[i].id);
            assert(ab.contains(rows[i].id) <==> rows[i].status != s && after[i].status == s);
            assert(bc.contains(after[i].id) <==> after[i].status != s && higher.rows[i].status
                == s);
        }
        assert forall|id: u128| #[trigger] ac.contains(id) implies exists|i: int|
            0 <= i < rows.len() && #[trigger] rows[i].id == id by {
            lemma_concat_has(ab, bc, id);
            if bc.contains(id) {
                let i = choose|i: int| 0 <= i < after.len() && #[trigger] after[i].id == id;
                assert(rows[i].id == id);
            }
        }
        assert forall|i: int, j: int| 0 <= i < ac.len() && 0 <= j < ac.len() && i != j implies ac[i]
            != ac[j] by {
            if ac[i] == ac[j] {
                let (x, y) = if i < j {
                    (i, j)
                } else {
                    (j, i)
                };
                if y >= ab.len() && x < ab.len() {
                    let id = ab[x];
                    assert(ab.contains(id));
                    assert(bc[y - ab.len()] == id);
                    assert(bc.contains(id));
                    let k = choose|k: int| 0 <= k < rows.len() && #[trigger] rows[k].id == id;
                    assert(after[k].id == id);
                    assert(ab.contains(rows[k].id));
                    assert(bc.contains(after[k].id));
                }
            }
        }
        assert forall|k: int, i: int|
            #![trigger whole.canceled[k], rows[i]]
            0 <= k < whole.canceled.len() && 0 <= i < rows.len() && whole.canceled[k].id
                == rows[i].id implies whole.canceled[k].was_active == rows[i].status.active() by {
            if k < canceled.len() {
                assert(whole.canceled[k] == canceled[k]);
            } else {
                let h = k - canceled.len();
                assert(whole.canceled[k] == higher.canceled[h]);
                assert(after[i] == step(rows[i]));
                assert(bc[h] == rows[i].id);
                assert(bc.contains(after[i].id));
                assert(after[i] == rows[i]);
            }
        }
    }
}

/// Predicates that agree on the rows select the same rows.
proof fn lemma_filter_same(
    rows: Seq<TaskRow>,
    p: spec_fn(TaskRow) -> bool,
    q: spec_fn(TaskRow) -> bool,
)
    requires
        forall|i: int| 0 <= i < rows.len() ==> p(#[trigger] rows[i]) == q(rows[i]),
    ensures
        rows.filter(p) == rows.filter(q),
    decreases rows.len(),
{
    reveal(Seq::filter);
    if rows.len() > 0 {
        assert(rows[rows.len() - 1] == rows.last());
        assert forall|i: int| 0 <= i < rows.drop_last().len() implies p(
            #[trigger] rows.drop_last()[i],
        ) == q(rows.drop_last()[i]) by {
            assert(rows[i] == rows.drop_last()[i]);
        }
        lemma_filter_same(rows.drop_last(), p, q);
    }
}

/// Dead-end cancellation keeps the counters in agreement with the graph: a
/// canceled ancestor has no live child whose counters could be off.
pub proof fn climb_keeps_counters(rows: Seq<TaskRow>, links: Seq<Link>, ids: Seq<u128>, now: int)
    requires
        unique_ids(rows),
        deps_ok(rows, links, Seq::empty()),
    ensures
        deps_ok(climb(rows, links, ids, now).rows, links, Seq::empty()),
{
    let none = Seq::<u128>::empty();
    let c = climb(rows, links, ids, now);
    climb_frame(rows, links, ids, now);
    assert forall|i: int| 0 <= i < c.rows.len() implies row_deps_ok(
        c.rows,
        links,
        none,
        #[trigger] c.rows[i],
    ) by {
        assert(climb_step(rows[i], c.rows[i]));
        assert(row_deps_ok(rows, links, none, rows[i]));
        if !c.rows[i].status.terminal() {
            let id = rows[i].id;
            assert(c.rows[i] == rows[i]);
            assert(live(c.rows, id));
            let q0 = waits_for(rows, none, id);
            let q1 = waits_for(c.rows, none, id);
            let s0 = waits_for_success(rows, none, id);
            let s1 = waits_for_success(c.rows, none, id);
            assert forall|k: int|
                0 <= k < links.len() && (#[trigger] links[k]).child_id == id implies live(
                rows,
                links[k].parent_id,
            ) == live(c.rows, links[k].parent_id) by {
                let p = links[k].parent_id;
                if live(c.rows, p) {
                    let w = choose|w: int|
                        0 <= w < c.rows.len() && #[trigger] c.rows[w].id == p
                            && !c.rows[w].status.terminal();
                    assert(climb_step(rows[w], c.rows[w]));
                    assert(rows[w].id == p);
                }
                if live(rows, p) {
                    let w = choose|w: int|
                        0 <= w < rows.len() && #[trigger] rows[w].id == p
                            && !rows[w].status.terminal();
                    assert(climb_step(rows[w], c.rows[w]));
                    if c.rows[w] != rows[w] {
                        assert(has_live_child(c.rows, links, p));
                    }
                    assert(c.rows[w].id == p);
                }
            }
            assert forall|k: int| 0 <= k < links.len() implies #[trigger] q0(links[k]) == q1(
                links[k],
            ) by {}
            lemma_count_same(links, q0, links, q1);
            assert forall|k: int| 0 <= k < links.len() implies #[trigger] s0(links[k]) == s1(
                links[k],
            ) by {}
            lemma_count_same(links, s0, links, s1);
        }
    }
}

} // verus!
