//! Why a task fails, waits or is canceled when another one ends.

use crate::models::{Link, StatusKind, TaskRow};
use crate::tally::{count, ids_where, lemma_count_zero, lemma_filter_has, lemma_ids_where_has};
use crate::text::uuid_text;
use crate::workers::graph_laws::{
    cascade_frame, climb_frame, climb_step, lemma_concat_has, propagation_frame,
    propagation_keeps_counters, propagation_step,
};
use crate::workers::propagation::{
    becomes, cascade, cascade_row, climb, dead_end, dead_end_canceled, dead_end_passed,
    dead_end_row, deps_ok, direct_fail_row, lemma_cascade_shrinks, lemma_climb_shrinks,
    links_from, live, propagation, required_by, row_deps_ok, settle_row, unique_ids, unique_links,
    waits_for, waits_for_success, CanceledAncestor,
};
use vstd::prelude::*;

verus! {

/// The child has to see the parent succeed.
pub open spec fn needs(links: Seq<Link>, child: u128, parent: u128) -> bool {
    exists|k: int|
        0 <= k < links.len() && (#[trigger] links[k]).child_id == child && links[k].parent_id
            == parent && links[k].requires_success
}

/// The child has to see the parent end, one way or the other.
pub open spec fn follows(links: Seq<Link>, child: u128, parent: u128) -> bool {
    exists|k: int|
        0 <= k < links.len() && (#[trigger] links[k]).child_id == child && links[k].parent_id
            == parent
}

/// A status in which nothing more happens to a task.
pub open spec fn is_end(s: StatusKind) -> bool {
    s == StatusKind::Success || s == StatusKind::Failure || s == StatusKind::Canceled
}

/// A task with this id that has not ended.
pub open spec fn goes_on(rows: Seq<TaskRow>, id: u128) -> bool {
    exists|i: int| 0 <= i < rows.len() && (#[trigger] rows[i]).id == id && !is_end(rows[i].status)
}

/// A status has exactly one of four parts: a task has ended, a worker holds it, it waits
/// or is paused, or it can be claimed.
pub proof fn statuses_have_one_part(s: StatusKind)
    ensures
        s.terminal() == is_end(s),
        s.active() == (s == StatusKind::Claimed || s == StatusKind::Running),
        s.blocked() == (s == StatusKind::Waiting || s == StatusKind::Paused),
        !(s.terminal() && s.active()) && !(s.terminal() && s.blocked()) && !(s.active()
            && s.blocked()),
        s == StatusKind::Pending <==> !s.terminal() && !s.active() && !s.blocked(),
{
}

proof fn lemma_from_needs(links: Seq<Link>, parents: Seq<u128>, child: u128)
    ensures
        required_by(links_from(links, parents), child) <==> exists|p: u128|
            parents.contains(p) && #[trigger] needs(links, child, p),
{
    let out = links_from(links, parents);
    let f = |l: Link| parents.contains(l.parent_id);
    if required_by(out, child) {
        let k = choose|k: int|
            0 <= k < out.len() && (#[trigger] out[k]).child_id == child && out[k].requires_success;
        assert(out.contains(out[k]));
        lemma_filter_has(links, f, out[k]);
        let j = choose|j: int| 0 <= j < links.len() && links[j] == out[k];
        assert(links[j].child_id == child);
        assert(needs(links, child, out[k].parent_id));
    }
    if exists|p: u128| parents.contains(p) && #[trigger] needs(links, child, p) {
        let p = choose|p: u128| parents.contains(p) && #[trigger] needs(links, child, p);
        let j = choose|j: int|
            0 <= j < links.len() && (#[trigger] links[j]).child_id == child && links[j].parent_id
                == p && links[j].requires_success;
        assert(links.contains(links[j]));
        lemma_filter_has(links, f, links[j]);
        let k = choose|k: int| 0 <= k < out.len() && out[k] == links[j];
        assert(out[k].child_id == child);
    }
}

/// Each failed task needs an earlier one of the list, or one of the frontier.
spec fn caused(links: Seq<Link>, frontier: Seq<u128>, failed: Seq<u128>, k: int) -> bool {
    exists|p: u128| #[trigger]
        needs(links, failed[k], p) && (frontier.contains(p) || failed.take(k).contains(p))
}

proof fn lemma_cascade_caused(rows: Seq<TaskRow>, links: Seq<Link>, frontier: Seq<u128>, now: int)
    ensures
        ({
            let s = cascade(rows, links, frontier, now);
            forall|k: int| 0 <= k < s.failed.len() ==> #[trigger] caused(links, frontier, s.failed, k)
        }),
    decreases count(rows, |r: TaskRow| r.status.blocked()),
{
    let out = links_from(links, frontier);
    let step = cascade_row(out, now);
    let after = rows.map_values(step);
    let fails = becomes(step, StatusKind::Failure);
    let failed = ids_where(rows, fails);
    let s = cascade(rows, links, frontier, now);
    assert forall|k: int| 0 <= k < failed.len() implies exists|p: u128| #[trigger]
        needs(links, #[trigger] failed[k], p) && frontier.contains(p) by {
        assert(failed.contains(failed[k]));
        lemma_ids_where_has(rows, fails, failed[k]);
        lemma_from_needs(links, frontier, failed[k]);
    }
    if failed.len() > 0 {
        lemma_cascade_shrinks(rows, out, now);
        lemma_cascade_caused(after, links, failed, now);
        let d = cascade(after, links, failed, now);
        assert forall|k: int| 0 <= k < s.failed.len() implies #[trigger] caused(
            links,
            frontier,
            s.failed,
            k,
        ) by {
            if k < failed.len() {
                assert(s.failed[k] == failed[k]);
            } else {
                let h = k - failed.len();
                assert(caused(links, failed, d.failed, h));
                assert(s.failed[k] == d.failed[h]);
                let p = choose|p: u128| #[trigger]
                    needs(links, d.failed[h], p) && (failed.contains(p) || d.failed.take(
                        h,
                    ).contains(p));
                assert(s.failed.take(k) =~= failed + d.failed.take(h));
                lemma_concat_has(failed, d.failed.take(h), p);
            }
        }
    } else {
        assert forall|k: int| 0 <= k < s.failed.len() implies #[trigger] caused(
            links,
            frontier,
            s.failed,
            k,
        ) by {}
    }
}

/// The failed task at this place needs the ended task, or one that failed before it.
pub open spec fn has_cause(
    links: Seq<Link>,
    parent: u128,
    failed: Seq<u128>,
    k: int,
) -> bool {
    exists|p: u128| #[trigger]
        needs(links, failed[k], p) && (p == parent || failed.take(k).contains(p))
}

/// The end of a task fails only tasks that need it, and only where it did not succeed:
/// every task that moves into `Failure` is listed, and needs the ended task or one that
/// stands before it in the list. A task that only follows the ended task and the failed
/// ones stays out of `Failure`.
pub proof fn only_needed_tasks_fail(
    rows: Seq<TaskRow>,
    links: Seq<Link>,
    parent: u128,
    status: StatusKind,
    now: int,
)
    requires
        unique_ids(rows),
    ensures
        ({
            let s = propagation(rows, links, parent, status, now);
            &&& s.rows.len() == rows.len()
            &&& forall|i: int|
                0 <= i < rows.len() && (#[trigger] rows[i]).status != StatusKind::Failure
                    && s.rows[i].status == StatusKind::Failure ==> s.failed.contains(rows[i].id)
            &&& s.failed.len() > 0 ==> status == StatusKind::Failure || status
                == StatusKind::Canceled
            &&& forall|k: int|
                0 <= k < s.failed.len() ==> #[trigger] has_cause(links, parent, s.failed, k)
            &&& forall|i: int|
                0 <= i < rows.len() && (#[trigger] rows[i]).status != StatusKind::Failure && !needs(
                    links,
                    rows[i].id,
                    parent,
                ) && (forall|p: u128| #[trigger]
                    s.failed.contains(p) ==> !needs(links, rows[i].id, p)) ==> s.rows[i].status
                    != StatusKind::Failure
        }),
{
    let s = propagation(rows, links, parent, status, now);
    propagation_frame(rows, links, parent, status, now);
    assert forall|i: int|
        0 <= i < rows.len() && (#[trigger] rows[i]).status != StatusKind::Failure
            && s.rows[i].status == StatusKind::Failure implies s.failed.contains(rows[i].id) by {
        assert(propagation_step(rows[i], s.rows[i]));
    }
    let one = seq![parent];
    assert forall|p: u128| #[trigger] one.contains(p) <==> p == parent by {
        assert(one[0] == parent);
    }
    if status == StatusKind::Failure || status == StatusKind::Canceled {
        let out = links_from(links, one);
        let direct = direct_fail_row(out, parent, now);
        let fails = becomes(direct, StatusKind::Failure);
        let first = ids_where(rows, fails);
        let mid = rows.map_values(direct);
        let below = cascade(mid, links, first, now);
        lemma_cascade_caused(mid, links, first, now);
        assert forall|k: int| 0 <= k < s.failed.len() implies #[trigger] has_cause(
            links,
            parent,
            s.failed,
            k,
        ) by {
            if k < first.len() {
                assert(s.failed[k] == first[k]);
                assert(first.contains(first[k]));
                lemma_ids_where_has(rows, fails, first[k]);
                lemma_from_needs(links, one, first[k]);
            } else {
                let h = k - first.len();
                assert(s.failed[k] == below.failed[h]);
                assert(caused(links, first, below.failed, h));
                let p = choose|p: u128| #[trigger]
                    needs(links, below.failed[h], p) && (first.contains(p) || below.failed.take(
                        h,
                    ).contains(p));
                assert(s.failed.take(k) =~= first + below.failed.take(h));
                lemma_concat_has(first, below.failed.take(h), p);
            }
        }
    }
    assert forall|i: int|
        0 <= i < rows.len() && (#[trigger] rows[i]).status != StatusKind::Failure && !needs(
            links,
            rows[i].id,
            parent,
        ) && (forall|p: u128| #[trigger] s.failed.contains(p) ==> !needs(
            links,
            rows[i].id,
            p,
        )) implies s.rows[i].status != StatusKind::Failure by {
        if s.rows[i].status == StatusKind::Failure {
            assert(s.failed.contains(rows[i].id));
            let k = choose|k: int| 0 <= k < s.failed.len() && s.failed[k] == rows[i].id;
            assert(has_cause(links, parent, s.failed, k));
            let p = choose|p: u128| #[trigger]
                needs(links, s.failed[k], p) && (p == parent || s.failed.take(k).contains(p));
            if s.failed.take(k).contains(p) {
                let j = choose|j: int| 0 <= j < k && s.failed.take(k)[j] == p;
                assert(s.failed[j] == p);
                assert(s.failed.contains(p));
            }
        }
    }
}

proof fn lemma_live_is_open(rows: Seq<TaskRow>, id: u128)
    ensures
        live(rows, id) == goes_on(rows, id),
{
    if live(rows, id) {
        let i = choose|i: int|
            0 <= i < rows.len() && #[trigger] rows[i].id == id && !rows[i].status.terminal();
        assert(rows[i].id == id && !is_end(rows[i].status));
    }
    if goes_on(rows, id) {
        let i = choose|i: int|
            0 <= i < rows.len() && (#[trigger] rows[i]).id == id && !is_end(rows[i].status);
        assert(rows[i].id == id && !rows[i].status.terminal());
    }
}

/// After the end of a task has been passed on, a task that waited before is in the one
/// status that its parents call for. It failed if it needs the ended task, where that did
/// not succeed, or one that failed with it. Otherwise it goes on waiting while one of its
/// parents goes on, and becomes `Pending` when none does. A paused task fails on the same
/// terms, and stays paused on all others. Whatever did not wait is left as it was.
pub proof fn parents_decide_the_status(
    rows: Seq<TaskRow>,
    links: Seq<Link>,
    parent: u128,
    status: StatusKind,
    now: int,
    i: int,
)
    requires
        unique_ids(rows),
        unique_links(links),
        is_end(status),
        !goes_on(rows, parent),
        deps_ok(rows, links, seq![parent]),
        0 <= i < rows.len(),
    ensures
        ({
            let s = propagation(rows, links, parent, status, now);
            let r = rows[i];
            let lost = status != StatusKind::Success && needs(links, r.id, parent) || exists|p: u128|
                #[trigger] s.failed.contains(p) && needs(links, r.id, p);
            let open = exists|p: u128| #[trigger] follows(links, r.id, p) && goes_on(s.rows, p);
            if r.status != StatusKind::Waiting && r.status != StatusKind::Paused {
                s.rows[i] == r
            } else if lost {
                s.rows[i].status == StatusKind::Failure
            } else if r.status == StatusKind::Paused || open {
                s.rows[i].status == r.status
            } else {
                s.rows[i].status == StatusKind::Pending
            }
        }),
{
    let s = propagation(rows, links, parent, status, now);
    let r = rows[i];
    lemma_live_is_open(rows, parent);
    propagation_frame(rows, links, parent, status, now);
    propagation_keeps_counters(rows, links, parent, status, now);
    only_needed_tasks_fail(rows, links, parent, status, now);
    assert(propagation_step(rows[i], s.rows[i]));
    assert(row_deps_ok(s.rows, links, Seq::empty(), s.rows[i]));
    if r.status == StatusKind::Waiting || r.status == StatusKind::Paused {
        let lost = status != StatusKind::Success && needs(links, r.id, parent) || exists|p: u128|
            #[trigger] s.failed.contains(p) && needs(links, r.id, p);
        if s.rows[i].status == StatusKind::Failure {
            assert(s.failed.contains(r.id));
            let k = choose|k: int| 0 <= k < s.failed.len() && s.failed[k] == r.id;
            assert(has_cause(links, parent, s.failed, k));
            let p = choose|p: u128| #[trigger]
                needs(links, s.failed[k], p) && (p == parent || s.failed.take(k).contains(p));
            if p != parent {
                let j = choose|j: int| 0 <= j < k && s.failed.take(k)[j] == p;
                assert(s.failed[j] == p);
                assert(s.failed.contains(p));
            }
            assert(lost);
        }
        if lost {
            lemma_lost_fails(rows, links, parent, status, now, i);
        }
        let none = Seq::<u128>::empty();
        let q = waits_for(s.rows, none, r.id);
        if s.rows[i].status == StatusKind::Waiting {
            assert(count(links, q) > 0);
            lemma_count_zero(links, q);
            let k = choose|k: int| 0 <= k < links.len() && #[trigger] q(links[k]);
            assert(follows(links, r.id, links[k].parent_id));
            lemma_live_is_open(s.rows, links[k].parent_id);
        }
        if s.rows[i].status == StatusKind::Pending {
            assert(count(links, q) == 0);
            if exists|p: u128| #[trigger] follows(links, r.id, p) && goes_on(s.rows, p) {
                let p = choose|p: u128| #[trigger] follows(links, r.id, p) && goes_on(s.rows, p);
                let k = choose|k: int|
                    0 <= k < links.len() && (#[trigger] links[k]).child_id == r.id
                        && links[k].parent_id == p;
                lemma_live_is_open(s.rows, p);
                assert(q(links[k]));
                lemma_count_zero(links, q);
            }
        }
    }
}

/// A task that needs a lost one does not get around failing.
proof fn lemma_lost_fails(
    rows: Seq<TaskRow>,
    links: Seq<Link>,
    parent: u128,
    status: StatusKind,
    now: int,
    i: int,
)
    requires
        unique_ids(rows),
        unique_links(links),
        is_end(status),
        !goes_on(rows, parent),
        deps_ok(rows, links, seq![parent]),
        0 <= i < rows.len(),
        rows[i].status == StatusKind::Waiting || rows[i].status == StatusKind::Paused,
        ({
            let s = propagation(rows, links, parent, status, now);
            status != StatusKind::Success && needs(links, rows[i].id, parent) || exists|p: u128|
                #[trigger] s.failed.contains(p) && needs(links, rows[i].id, p)
        }),
    ensures
        propagation(rows, links, parent, status, now).rows[i].status == StatusKind::Failure,
{
    let s = propagation(rows, links, parent, status, now);
    propagation_frame(rows, links, parent, status, now);
    only_needed_tasks_fail(rows, links, parent, status, now);
    lemma_live_is_open(rows, parent);
    propagation_keeps_counters(rows, links, parent, status, now);
    assert(propagation_step(rows[i], s.rows[i]));
    let one = seq![parent];
    let all = one + s.failed;
    let p = if status != StatusKind::Success && needs(links, rows[i].id, parent) {
        parent
    } else {
        choose|p: u128| #[trigger] s.failed.contains(p) && needs(links, rows[i].id, p)
    };
    assert(one[0] == parent);
    lemma_concat_has(one, s.failed, p);
    lemma_from_needs(links, all, rows[i].id);
    // Failed or not, it is no longer blocked; what is left is that it is not `Pending`.
    if s.rows[i].status == StatusKind::Pending {
        if p == parent && status != StatusKind::Success {
            lemma_direct_child_fails(rows, links, parent, status, now, i);
        } else {
            lemma_pending_needs_nothing_lost(rows, links, parent, status, now, i, p);
        }
    }
    if s.failed.len() == 0 {
        assert(status != StatusKind::Success);
    }
}

/// A direct child that needs the lost parent fails at once.
proof fn lemma_direct_child_fails(
    rows: Seq<TaskRow>,
    links: Seq<Link>,
    parent: u128,
    status: StatusKind,
    now: int,
    i: int,
)
    requires
        unique_ids(rows),
        status == StatusKind::Failure || status == StatusKind::Canceled,
        0 <= i < rows.len(),
        rows[i].status == StatusKind::Waiting || rows[i].status == StatusKind::Paused,
        needs(links, rows[i].id, parent),
    ensures
        propagation(rows, links, parent, status, now).rows[i].status == StatusKind::Failure,
        propagation(rows, links, parent, status, now).rows[i] == direct_fail_row(
            links_from(links, seq![parent]),
            parent,
            now,
        )(rows[i]),
{
    let one = seq![parent];
    let out = links_from(links, one);
    let direct = direct_fail_row(out, parent, now);
    let mid = rows.map_values(direct);
    let first = ids_where(rows, becomes(direct, StatusKind::Failure));
    let below = cascade(mid, links, first, now);
    assert(one[0] == parent);
    lemma_from_needs(links, one, rows[i].id);
    assert(one.contains(parent));
    assert(mid[i] == direct(rows[i]));
    assert(mid[i].status == StatusKind::Failure);
    assert forall|a: int, b: int|
        0 <= a < mid.len() && 0 <= b < mid.len() && #[trigger] mid[a].id
            == #[trigger] mid[b].id implies a == b by {
        assert(mid[a].id == rows[a].id && mid[b].id == rows[b].id);
    }
    cascade_frame(mid, links, first, now);
    assert(propagation_step(mid[i], below.rows[i]));
    assert(below.rows[i] == mid[i]);
}

/// A cascade takes no success off any counter.
proof fn lemma_cascade_wait_success(
    rows: Seq<TaskRow>,
    links: Seq<Link>,
    frontier: Seq<u128>,
    now: int,
)
    ensures
        ({
            let s = cascade(rows, links, frontier, now);
            &&& s.rows.len() == rows.len()
            &&& forall|i: int|
                0 <= i < rows.len() ==> (#[trigger] s.rows[i]).wait_success == rows[i].wait_success
        }),
    decreases count(rows, |r: TaskRow| r.status.blocked()),
{
    let out = links_from(links, frontier);
    let step = cascade_row(out, now);
    let after = rows.map_values(step);
    let failed = ids_where(rows, becomes(step, StatusKind::Failure));
    let s = cascade(rows, links, frontier, now);
    if failed.len() > 0 {
        lemma_cascade_shrinks(rows, out, now);
        lemma_cascade_wait_success(after, links, failed, now);
        assert forall|i: int| 0 <= i < rows.len() implies (#[trigger] s.rows[i]).wait_success
            == rows[i].wait_success by {
            assert(after[i] == step(rows[i]));
            assert(cascade(after, links, failed, now).rows[i].wait_success
                == after[i].wait_success);
        }
    } else {
        assert forall|i: int| 0 <= i < rows.len() implies (#[trigger] s.rows[i]).wait_success
            == rows[i].wait_success by {
            assert(s.rows[i] == step(rows[i]));
        }
    }
}

/// A task that became `Pending` needs none of the tasks that failed.
proof fn lemma_pending_needs_nothing_lost(
    rows: Seq<TaskRow>,
    links: Seq<Link>,
    parent: u128,
    status: StatusKind,
    now: int,
    i: int,
    p: u128,
)
    requires
        unique_ids(rows),
        unique_links(links),
        is_end(status),
        !goes_on(rows, parent),
        deps_ok(rows, links, seq![parent]),
        0 <= i < rows.len(),
        rows[i].status == StatusKind::Waiting || rows[i].status == StatusKind::Paused,
        propagation(rows, links, parent, status, now).failed.contains(p),
        needs(links, rows[i].id, p),
    ensures
        propagation(rows, links, parent, status, now).rows[i].status != StatusKind::Pending,
{
    let s = propagation(rows, links, parent, status, now);
    lemma_live_is_open(rows, parent);
    propagation_frame(rows, links, parent, status, now);
    only_needed_tasks_fail(rows, links, parent, status, now);
    propagation_keeps_counters(rows, links, parent, status, now);
    assert(s.failed.len() > 0);
    let one = seq![parent];
    let out = links_from(links, one);
    let direct = direct_fail_row(out, parent, now);
    let mid = rows.map_values(direct);
    let first = ids_where(rows, becomes(direct, StatusKind::Failure));
    let below = cascade(mid, links, first, now);
    lemma_cascade_wait_success(mid, links, first, now);
    assert(mid[i] == direct(rows[i]));
    assert(below.rows[i].wait_success == mid[i].wait_success);
    assert(s.rows[i] == settle_row(out, false, true)(below.rows[i]));
    assert(s.rows[i].wait_success == rows[i].wait_success);
    // The failed task went on before, so the counter was not zero.
    let w = choose|w: int| 0 <= w < rows.len() && #[trigger] rows[w].id == p;
    assert(propagation_step(rows[w], s.rows[w]));
    assert(s.failed.contains(rows[w].id));
    assert(rows[w].status != StatusKind::Failure && s.rows[w].status == StatusKind::Failure);
    assert(live(rows, p));
    let q = waits_for_success(rows, one, rows[i].id);
    let k = choose|k: int|
        0 <= k < links.len() && (#[trigger] links[k]).child_id == rows[i].id && links[k].parent_id
            == p && links[k].requires_success;
    assert(q(links[k]));
    lemma_count_zero(links, q);
    assert(row_deps_ok(rows, links, one, rows[i]));
    assert(rows[i].wait_success > 0);
    if s.rows[i].status == StatusKind::Pending {
        let none = Seq::<u128>::empty();
        assert(row_deps_ok(s.rows, links, none, s.rows[i]));
        assert(propagation_step(rows[i], s.rows[i]));
        let a = waits_for(s.rows, none, rows[i].id);
        let b = waits_for_success(s.rows, none, rows[i].id);
        lemma_count_zero(links, a);
        lemma_count_zero(links, b);
        assert forall|j: int| 0 <= j < links.len() implies !#[trigger] b(links[j]) by {
            assert(!a(links[j]));
        }
    }
}

proof fn lemma_cascade_reason(rows: Seq<TaskRow>, links: Seq<Link>, frontier: Seq<u128>, now: int)
    requires
        unique_ids(rows),
    ensures
        ({
            let s = cascade(rows, links, frontier, now);
            &&& s.rows.len() == rows.len()
            &&& forall|i: int|
                0 <= i < rows.len() && (#[trigger] rows[i]).status != StatusKind::Failure
                    && s.rows[i].status == StatusKind::Failure ==> s.rows[i].failure_reason == Some(
                    "Required parent task failed"@,
                ) && s.rows[i].ended_at == Some(now)
        }),
    decreases count(rows, |r: TaskRow| r.status.blocked()),
{
    let out = links_from(links, frontier);
    let step = cascade_row(out, now);
    let after = rows.map_values(step);
    let failed = ids_where(rows, becomes(step, StatusKind::Failure));
    let s = cascade(rows, links, frontier, now);
    cascade_frame(rows, links, frontier, now);
    if failed.len() > 0 {
        lemma_cascade_shrinks(rows, out, now);
        assert forall|a: int, b: int|
            0 <= a < after.len() && 0 <= b < after.len() && #[trigger] after[a].id
                == #[trigger] after[b].id implies a == b by {
            assert(after[a].id == rows[a].id && after[b].id == rows[b].id);
        }
        cascade_frame(after, links, failed, now);
        lemma_cascade_reason(after, links, failed, now);
        assert forall|i: int|
            0 <= i < rows.len() && (#[trigger] rows[i]).status != StatusKind::Failure
                && s.rows[i].status == StatusKind::Failure implies s.rows[i].failure_reason == Some(
            "Required parent task failed"@,
        ) && s.rows[i].ended_at == Some(now) by {
            assert(after[i] == step(rows[i]));
            assert(propagation_step(after[i], cascade(after, links, failed, now).rows[i]));
        }
    }
}

/// A task that fails because of another one ended when that was passed on, and says why:
/// it names the parent where it needs it directly.
pub proof fn passed_on_failures_say_why(
    rows: Seq<TaskRow>,
    links: Seq<Link>,
    parent: u128,
    status: StatusKind,
    now: int,
    i: int,
)
    requires
        unique_ids(rows),
        0 <= i < rows.len(),
        rows[i].status != StatusKind::Failure,
        propagation(rows, links, parent, status, now).rows[i].status == StatusKind::Failure,
    ensures
        ({
            let r = propagation(rows, links, parent, status, now).rows[i];
            &&& r.ended_at == Some(now)
            &&& r.failure_reason == Some(
                if needs(links, rows[i].id, parent) {
                    "Required parent task "@ + uuid_text(parent) + " failed"@
                } else {
                    "Required parent task failed"@
                },
            )
            &&& r.last_updated == rows[i].last_updated
        }),
{
    let s = propagation(rows, links, parent, status, now);
    propagation_frame(rows, links, parent, status, now);
    only_needed_tasks_fail(rows, links, parent, status, now);
    assert(propagation_step(rows[i], s.rows[i]));
    assert(s.failed.contains(rows[i].id));
    let one = seq![parent];
    let out = links_from(links, one);
    let direct = direct_fail_row(out, parent, now);
    let mid = rows.map_values(direct);
    let first = ids_where(rows, becomes(direct, StatusKind::Failure));
    let below = cascade(mid, links, first, now);
    if needs(links, rows[i].id, parent) {
        lemma_direct_child_fails(rows, links, parent, status, now, i);
        assert(s.rows[i] == direct(rows[i]));
        assert(rows[i].status != s.rows[i].status);
    } else {
        lemma_from_needs(links, one, rows[i].id);
        assert(forall|p: u128| #[trigger] one.contains(p) ==> p == parent);
        assert(mid[i] == rows[i]);
        assert forall|a: int, b: int|
            0 <= a < mid.len() && 0 <= b < mid.len() && #[trigger] mid[a].id
                == #[trigger] mid[b].id implies a == b by {
            assert(mid[a].id == rows[a].id && mid[b].id == rows[b].id);
        }
        lemma_cascade_reason(mid, links, first, now);
        assert(s.rows[i] == settle_row(out, false, true)(below.rows[i]));
        assert(below.rows[i].status == StatusKind::Failure);
        assert(mid[i].status != StatusKind::Failure);
    }
}

// ---------------------------------------------------------------------------
// Dead ends
// ---------------------------------------------------------------------------

/// A task that the climb passes: canceled, and not marked to stop it.
pub open spec fn passed_by(rows: Seq<TaskRow>, id: u128) -> bool {
    exists|i: int| 0 <= i < rows.len() && (#[trigger] rows[i]).id == id && !rows[i].dead_end_barrier
}

/// The canceled ancestor at this place has a child among the ended tasks, or among those
/// canceled before it and passed.
pub open spec fn climbed_to(
    rows: Seq<TaskRow>,
    links: Seq<Link>,
    ids: Seq<u128>,
    canceled: Seq<CanceledAncestor>,
    k: int,
) -> bool {
    exists|c: u128| #[trigger]
        follows(links, c, canceled[k].id) && (ids.contains(c) || (passed_by(rows, c) && exists|
            j: int,
        |
            0 <= j < k && (#[trigger] canceled[j]).id == c))
}

proof fn lemma_climbed(rows: Seq<TaskRow>, links: Seq<Link>, ids: Seq<u128>, now: int)
    requires
        unique_ids(rows),
    ensures
        ({
            let c = climb(rows, links, ids, now);
            forall|k: int|
                0 <= k < c.canceled.len() ==> #[trigger] climbed_to(rows, links, ids, c.canceled, k)
        }),
    decreases count(rows, |r: TaskRow| !r.status.terminal()),
{
    let p = dead_end(rows, links, ids);
    let canceled = dead_end_canceled(rows, links, ids);
    let c = climb(rows, links, ids, now);
    let after = rows.map_values(dead_end_row(rows, links, ids, now));
    let pass = dead_end_passed(rows, links, ids);
    let next = ids_where(rows, pass);
    let sel = rows.filter(p);
    if canceled.len() > 0 {
        lemma_climb_shrinks(rows, links, ids, now);
        assert forall|a: int, b: int|
            0 <= a < after.len() && 0 <= b < after.len() && #[trigger] after[a].id
                == #[trigger] after[b].id implies a == b by {
            assert(after[a].id == rows[a].id && after[b].id == rows[b].id);
        }
        lemma_climbed(after, links, next, now);
        let h = climb(after, links, next, now);
        assert forall|k: int| 0 <= k < c.canceled.len() implies #[trigger] climbed_to(
            rows,
            links,
            ids,
            c.canceled,
            k,
        ) by {
            if k < canceled.len() {
                assert(sel.contains(sel[k]));
                lemma_filter_has(rows, p, sel[k]);
                assert(c.canceled[k] == canceled[k]);
                assert(canceled[k].id == sel[k].id);
                let l = choose|l: int|
                    0 <= l < links.len() && (#[trigger] links[l]).parent_id == sel[k].id
                        && ids.contains(links[l].child_id);
                assert(follows(links, links[l].child_id, c.canceled[k].id));
            } else {
                let g = k - canceled.len();
                assert(climbed_to(after, links, next, h.canceled, g));
                assert(c.canceled[k] == h.canceled[g]);
                let x = choose|x: u128| #[trigger]
                    follows(links, x, h.canceled[g].id) && (next.contains(x) || (passed_by(after, x)
                        && exists|j: int| 0 <= j < g && (#[trigger] h.canceled[j]).id == x));
                if next.contains(x) {
                    lemma_ids_where_has(rows, pass, x);
                    let w = choose|w: int|
                        0 <= w < rows.len() && #[trigger] rows[w].id == x && pass(rows[w]);
                    assert(passed_by(rows, x));
                    assert(rows.contains(rows[w]));
                    lemma_filter_has(rows, p, rows[w]);
                    let j = choose|j: int| 0 <= j < sel.len() && sel[j] == rows[w];
                    assert(c.canceled[j].id == x);
                } else {
                    let w = choose|w: int|
                        0 <= w < after.len() && (#[trigger] after[w]).id == x
                            && !after[w].dead_end_barrier;
                    assert(rows[w].id == x && !rows[w].dead_end_barrier);
                    let j = choose|j: int| 0 <= j < g && (#[trigger] h.canceled[j]).id == x;
                    assert(c.canceled[canceled.len() + j].id == x);
                }
                assert(follows(links, x, c.canceled[k].id));
            }
        }
    }
}

/// A row that the climb changed.
spec fn changed(a: Seq<TaskRow>, b: Seq<TaskRow>, id: u128) -> bool {
    exists|i: int| 0 <= i < a.len() && (#[trigger] a[i]).id == id && b[i] != a[i]
}

/// A canceled task that stopped the climb.
pub open spec fn stopped_at(a: Seq<TaskRow>, b: Seq<TaskRow>, id: u128) -> bool {
    exists|i: int|
        0 <= i < a.len() && (#[trigger] a[i]).id == id && !is_end(a[i].status) && b[i].status
            == StatusKind::Canceled && a[i].dead_end_barrier
}

/// Why a task with an ended child goes on: a child that goes on, or a stop below it.
spec fn held(a: Seq<TaskRow>, b: Seq<TaskRow>, links: Seq<Link>, id: u128) -> bool {
    exists|c: u128| #[trigger] follows(links, c, id) && (goes_on(b, c) || stopped_at(a, b, c))
}

proof fn lemma_held(rows: Seq<TaskRow>, links: Seq<Link>, ids: Seq<u128>, now: int, i: int, y: u128)
    requires
        unique_ids(rows),
        0 <= i < rows.len(),
        !is_end(climb(rows, links, ids, now).rows[i].status),
        follows(links, y, rows[i].id),
        ids.contains(y) || changed(rows, climb(rows, links, ids, now).rows, y),
    ensures
        held(rows, climb(rows, links, ids, now).rows, links, rows[i].id),
    decreases
            count(rows, |r: TaskRow| !r.status.terminal()),
            if changed(rows, climb(rows, links, ids, now).rows, y) {
                0int
            } else {
                1int
            },
{
    let p = dead_end(rows, links, ids);
    let canceled = dead_end_canceled(rows, links, ids);
    let c = climb(rows, links, ids, now);
    let step = dead_end_row(rows, links, ids, now);
    let after = rows.map_values(step);
    let pass = dead_end_passed(rows, links, ids);
    let next = ids_where(rows, pass);
    climb_frame(rows, links, ids, now);
    assert(climb_step(rows[i], c.rows[i]));
    let id = rows[i].id;
    assert(c.rows[i] == rows[i]);
    assert forall|w: int| 0 <= w < rows.len() implies p(#[trigger] rows[w]) ==> canceled.len()
        > 0 by {
        if p(rows[w]) {
            assert(rows.contains(rows[w]));
            lemma_filter_has(rows, p, rows[w]);
        }
    }
    // A child that is or was changed by this step, or by a later one.
    if changed(rows, c.rows, y) {
        let w = choose|w: int| 0 <= w < rows.len() && (#[trigger] rows[w]).id == y && c.rows[w]
            != rows[w];
        assert(climb_step(rows[w], c.rows[w]));
        if canceled.len() > 0 {
            lemma_climb_shrinks(rows, links, ids, now);
            assert forall|a: int, b: int|
                0 <= a < after.len() && 0 <= b < after.len() && #[trigger] after[a].id
                    == #[trigger] after[b].id implies a == b by {
                assert(after[a].id == rows[a].id && after[b].id == rows[b].id);
            }
            climb_frame(after, links, next, now);
            assert(climb_step(after[i], c.rows[i]));
            assert(climb_step(after[w], c.rows[w]));
            assert(after[i].id == id);
            if rows[w].dead_end_barrier {
                assert(stopped_at(rows, c.rows, y));
            } else {
                if p(rows[w]) {
                    lemma_ids_where_has(rows, pass, y);
                    assert(pass(rows[w]));
                    assert(next.contains(y));
                } else {
                    assert(after[w] == rows[w]);
                    assert(after[w].id == y && c.rows[w] != after[w]);
                    assert(changed(after, c.rows, y));
                }
                lemma_held(after, links, next, now, i, y);
                let z = choose|z: u128| #[trigger]
                    follows(links, z, id) && (goes_on(c.rows, z) || stopped_at(after, c.rows, z));
                if !goes_on(c.rows, z) {
                    let v = choose|v: int|
                        0 <= v < after.len() && (#[trigger] after[v]).id == z && !is_end(
                            after[v].status,
                        ) && c.rows[v].status == StatusKind::Canceled
                            && after[v].dead_end_barrier;
                    assert(after[v] == rows[v]);
                    assert(stopped_at(rows, c.rows, z));
                }
            }
        }
    } else {
        // It was asked for, so it was no dead end: another child goes on.
        let l = choose|l: int|
            0 <= l < links.len() && (#[trigger] links[l]).child_id == y && links[l].parent_id
                == id;
        assert(links[l].parent_id == id && ids.contains(links[l].child_id));
        if p(rows[i]) {
            if canceled.len() > 0 {
                assert forall|a: int, b: int|
                    0 <= a < after.len() && 0 <= b < after.len() && #[trigger] after[a].id
                        == #[trigger] after[b].id implies a == b by {
                    assert(after[a].id == rows[a].id && after[b].id == rows[b].id);
                }
                climb_frame(after, links, next, now);
                assert(climb_step(after[i], c.rows[i]));
            }
        }
        assert(!p(rows[i]));
        let m = choose|m: int|
            0 <= m < links.len() && (#[trigger] links[m]).parent_id == id && live(
                rows,
                links[m].child_id,
            );
        let z = links[m].child_id;
        assert(follows(links, z, id));
        let w = choose|w: int|
            0 <= w < rows.len() && #[trigger] rows[w].id == z && !rows[w].status.terminal();
        assert(climb_step(rows[w], c.rows[w]));
        if c.rows[w] == rows[w] {
            assert(c.rows[w].id == z);
            assert(goes_on(c.rows, z));
        } else {
            assert(changed(rows, c.rows, z));
            lemma_held(rows, links, ids, now, i, z);
        }
    }
}

proof fn lemma_climb_rows(rows: Seq<TaskRow>, links: Seq<Link>, ids: Seq<u128>, now: int)
    ensures
        ({
            let c = climb(rows, links, ids, now);
            &&& c.rows.len() == rows.len()
            &&& forall|i: int|
                0 <= i < rows.len() ==> (#[trigger] c.rows[i]) == rows[i] || c.rows[i] == (TaskRow {
                    status: StatusKind::Canceled,
                    failure_reason: Some("All child tasks already terminated"@),
                    ended_at: Some(now),
                    last_updated: now,
                    ..rows[i]
                })
        }),
    decreases count(rows, |r: TaskRow| !r.status.terminal()),
{
    let canceled = dead_end_canceled(rows, links, ids);
    let c = climb(rows, links, ids, now);
    if canceled.len() > 0 {
        let step = dead_end_row(rows, links, ids, now);
        let after = rows.map_values(step);
        let next = ids_where(rows, dead_end_passed(rows, links, ids));
        lemma_climb_shrinks(rows, links, ids, now);
        lemma_climb_rows(after, links, next, now);
        let h = climb(after, links, next, now);
        assert forall|i: int| 0 <= i < rows.len() implies (#[trigger] c.rows[i]) == rows[i]
            || c.rows[i] == (TaskRow {
            status: StatusKind::Canceled,
            failure_reason: Some("All child tasks already terminated"@),
            ended_at: Some(now),
            last_updated: now,
            ..rows[i]
        }) by {
            assert(after[i] == step(rows[i]));
            assert(h.rows[i] == c.rows[i]);
        }
    }
}

/// A dead end is a task whose children have all ended, one of them just now. It is
/// canceled at once, which makes its own parents dead ends in turn, unless it is marked to
/// stop that.
///
/// Canceled are only tasks that went on, with no child that goes on afterwards, and with a
/// child among the ended tasks or among those canceled before and not marked. And of the
/// tasks that go on, one with such a child has another one that goes on, or one that was
/// canceled and is marked.
pub proof fn dead_ends_are_canceled(rows: Seq<TaskRow>, links: Seq<Link>, ids: Seq<u128>, now: int)
    requires
        unique_ids(rows),
    ensures
        ({
            let c = climb(rows, links, ids, now);
            &&& c.rows.len() == rows.len()
            &&& forall|i: int|
                0 <= i < rows.len() && #[trigger] c.rows[i] != rows[i] ==> {
                    &&& !is_end(rows[i].status)
                    &&& c.rows[i] == (TaskRow {
                        status: StatusKind::Canceled,
                        failure_reason: Some("All child tasks already terminated"@),
                        ended_at: Some(now),
                        last_updated: now,
                        ..rows[i]
                    })
                    &&& forall|x: u128| #[trigger]
                        follows(links, x, rows[i].id) ==> !goes_on(c.rows, x)
                    &&& exists|k: int|
                        0 <= k < c.canceled.len() && (#[trigger] c.canceled[k]).id == rows[i].id
                            && c.canceled[k].was_active == (rows[i].status == StatusKind::Claimed
                            || rows[i].status == StatusKind::Running)
                }
            &&& forall|k: int|
                0 <= k < c.canceled.len() ==> #[trigger] climbed_to(rows, links, ids, c.canceled, k)
            &&& forall|i: int, y: u128|
                #![trigger rows[i], follows(links, y, rows[i].id)]
                0 <= i < rows.len() && !is_end(c.rows[i].status) && follows(links, y, rows[i].id)
                    && ids.contains(y) ==> exists|x: u128| #[trigger]
                    follows(links, x, rows[i].id) && (goes_on(c.rows, x) || stopped_at(
                        rows,
                        c.rows,
                        x,
                    ))
        }),
{
    let c = climb(rows, links, ids, now);
    climb_frame(rows, links, ids, now);
    lemma_climb_rows(rows, links, ids, now);
    lemma_climbed(rows, links, ids, now);
    let getid = |a: CanceledAncestor| a.id;
    assert forall|i: int| 0 <= i < rows.len() && #[trigger] c.rows[i] != rows[i] implies {
        &&& !is_end(rows[i].status)
        &&& forall|x: u128| #[trigger] follows(links, x, rows[i].id) ==> !goes_on(c.rows, x)
        &&& exists|k: int|
            0 <= k < c.canceled.len() && (#[trigger] c.canceled[k]).id == rows[i].id
                && c.canceled[k].was_active == (rows[i].status == StatusKind::Claimed
                || rows[i].status == StatusKind::Running)
    } by {
        assert(climb_step(rows[i], c.rows[i]));
        let listed = c.canceled.map_values(getid);
        assert(listed.contains(rows[i].id));
        let k = choose|k: int| 0 <= k < listed.len() && listed[k] == rows[i].id;
        assert(c.canceled[k].id == rows[i].id);
        assert forall|x: u128| #[trigger] follows(links, x, rows[i].id) implies !goes_on(
            c.rows,
            x,
        ) by {
            let l = choose|l: int|
                0 <= l < links.len() && (#[trigger] links[l]).child_id == x && links[l].parent_id
                    == rows[i].id;
            lemma_live_is_open(c.rows, x);
            assert(links[l].parent_id == rows[i].id);
        }
    }
    assert forall|i: int, y: u128|
        #![trigger rows[i], follows(links, y, rows[i].id)]
        0 <= i < rows.len() && !is_end(c.rows[i].status) && follows(links, y, rows[i].id)
            && ids.contains(y) implies exists|x: u128| #[trigger]
        follows(links, x, rows[i].id) && (goes_on(c.rows, x) || stopped_at(rows, c.rows, x)) by {
        lemma_held(rows, links, ids, now, i, y);
    }
}

} // verus!
