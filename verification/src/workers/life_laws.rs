//! What each operation does to the task that it is about.

use crate::db::task_crud::{claim_row, running_row};
use crate::db::task_lifecycle::{
    after_stop, after_update, failed_row, is_active_task, paused_row, resumed_row, updated_row,
};
use crate::db::task_query::{stale_claim, timed_out, timeout_row};
use crate::dtos::UpdateView;
use crate::models::{StatusKind, TaskRow};
use crate::order::first_n;
use crate::store::Tables;
use crate::tally::{ids_where, lemma_ids_where_has};
use crate::workers::cancel::{cancel_notice, cancel_task_row};
use crate::workers::finish::{dead_ends, finished, terminal_ids, Notice};
use crate::workers::graph_laws::{
    climb_frame, climb_step, lemma_concat_has, propagation_frame, propagation_step,
};
use crate::workers::propagation::{climb, propagation, unique_ids};
use crate::workers::spread_laws::{dead_ends_are_canceled, follows, goes_on, is_end, stopped_at};
use crate::workers::start_task::beaten_row;
use crate::workers::timeout_loop::requeued;
use vstd::prelude::*;

verus! {

// ---------------------------------------------------------------------------
// Lists of tasks
// ---------------------------------------------------------------------------

/// A running task has been idle for longer than its own timeout allows.
pub open spec fn idle_too_long(r: TaskRow, now: int) -> bool {
    &&& r.status == StatusKind::Running
    &&& r.started_at is Some
    &&& now - r.last_updated > r.timeout * 1_000_000
}

/// Picking rows one by one: what is listed before a listed row.
proof fn lemma_listed_in_order(
    rows: Seq<TaskRow>,
    p: spec_fn(TaskRow) -> bool,
    n: int,
    i: int,
    j: int,
)
    requires
        unique_ids(rows),
        0 <= i < j < rows.len(),
        0 <= n,
        p(rows[i]),
        first_n(ids_where(rows, p), n).contains(rows[j].id),
    ensures
        first_n(ids_where(rows, p), n).contains(rows[i].id),
    decreases rows.len(),
{
    reveal(Seq::filter);
    let last = rows.len() - 1;
    let init = rows.drop_last();
    let sub = ids_where(init, p);
    let all = ids_where(rows, p);
    assert forall|a: int, b: int|
        0 <= a < init.len() && 0 <= b < init.len() && #[trigger] init[a].id
            == #[trigger] init[b].id implies a == b by {
        assert(rows[a].id == rows[b].id);
    }
    assert(all =~= if p(rows.last()) {
        sub.push(rows[last].id)
    } else {
        sub
    });
    let got = first_n(all, n);
    if j < last {
        let m = choose|m: int| 0 <= m < got.len() && got[m] == rows[j].id;
        assert(all[m] == rows[j].id);
        if m == sub.len() {
            assert(rows[j].id == rows[last].id);
        }
        assert(first_n(sub, n)[m] == init[j].id);
        assert(first_n(sub, n).contains(init[j].id));
        lemma_listed_in_order(init, p, n, i, j);
        let w = choose|w: int| 0 <= w < first_n(sub, n).len() && first_n(sub, n)[w] == init[i].id;
        assert(got[w] == rows[i].id);
    } else {
        // The last row is listed, so all before it are.
        lemma_ids_where_has(rows, p, rows[last].id);
        lemma_ids_where_has(init, p, rows[i].id);
        assert(init[i].id == rows[i].id);
        assert(sub.contains(rows[i].id));
        let m = choose|m: int| 0 <= m < got.len() && got[m] == rows[last].id;
        assert(all[m] == rows[last].id);
        assert(m == sub.len()) by {
            if m < sub.len() {
                assert(sub.contains(rows[last].id));
                lemma_ids_where_has(init, p, rows[last].id);
                let k = choose|k: int|
                    0 <= k < init.len() && #[trigger] init[k].id == rows[last].id && p(init[k]);
                assert(rows[k].id == rows[last].id);
            }
        }
        let w = choose|w: int| 0 <= w < sub.len() && sub[w] == rows[i].id;
        assert(got[w] == rows[i].id);
    }
}

/// Every task is held to its own timeout. A listed task has been idle for longer than its
/// `timeout` column says; as long as there is room, every such task is listed, the first
/// ones first. So a task whose timeout is raised to what it has been idle is off the list.
pub proof fn timeouts_are_the_tasks_own(rows: Seq<TaskRow>, limit: int, now: int)
    requires
        unique_ids(rows),
        limit >= 0,
    ensures
        ({
            let listed = first_n(ids_where(rows, timed_out(now)), limit);
            &&& listed.len() <= limit
            &&& forall|id: u128| #[trigger]
                listed.contains(id) ==> exists|i: int|
                    0 <= i < rows.len() && (#[trigger] rows[i]).id == id && idle_too_long(
                        rows[i],
                        now,
                    )
            &&& forall|i: int|
                0 <= i < rows.len() && listed.contains((#[trigger] rows[i]).id) ==> idle_too_long(
                    rows[i],
                    now,
                )
            &&& listed.len() < limit ==> forall|i: int|
                0 <= i < rows.len() && idle_too_long(#[trigger] rows[i], now) ==> listed.contains(
                    rows[i].id,
                )
            &&& forall|i: int, j: int|
                #![trigger rows[i], rows[j]]
                0 <= i < j < rows.len() && idle_too_long(rows[i], now) && listed.contains(
                    rows[j].id,
                ) ==> listed.contains(rows[i].id)
        }),
{
    let p = timed_out(now);
    let all = ids_where(rows, p);
    let listed = first_n(all, limit);
    assert forall|id: u128| #[trigger] listed.contains(id) implies exists|i: int|
        0 <= i < rows.len() && (#[trigger] rows[i]).id == id && idle_too_long(rows[i], now) by {
        let k = choose|k: int| 0 <= k < listed.len() && listed[k] == id;
        assert(all[k] == id);
        lemma_ids_where_has(rows, p, id);
        let i = choose|i: int| 0 <= i < rows.len() && #[trigger] rows[i].id == id && p(rows[i]);
        assert(rows[i].id == id && idle_too_long(rows[i], now));
    }
    assert forall|i: int|
        0 <= i < rows.len() && listed.contains((#[trigger] rows[i]).id) implies idle_too_long(
        rows[i],
        now,
    ) by {
        let j = choose|j: int|
            0 <= j < rows.len() && (#[trigger] rows[j]).id == rows[i].id && idle_too_long(
                rows[j],
                now,
            );
        assert(rows[j].id == rows[i].id);
    }
    assert forall|i: int|
        listed.len() < limit && 0 <= i < rows.len() && idle_too_long(
            #[trigger] rows[i],
            now,
        ) implies listed.contains(rows[i].id) by {
        assert(p(rows[i]));
        lemma_ids_where_has(rows, p, rows[i].id);
    }
    assert forall|i: int, j: int|
        #![trigger rows[i], rows[j]]
        0 <= i < j < rows.len() && idle_too_long(rows[i], now) && listed.contains(
            rows[j].id,
        ) implies listed.contains(rows[i].id) by {
        assert(p(rows[i]));
        lemma_listed_in_order(rows, p, limit, i, j);
    }
}

/// A claim is taken back if and only if it has not been started or refreshed for longer
/// than the given time. The task can be claimed again at once, and holds no slot.
pub proof fn only_stale_claims_return(s: Tables, timeout: int, now: int, i: int)
    requires
        unique_ids(s.tasks),
        0 <= i < s.tasks.len(),
    ensures
        ({
            let r = s.tasks[i];
            let listed = ids_where(s.tasks, stale_claim(timeout, now));
            let f = requeued(s, timeout, now);
            let stale = r.status == StatusKind::Claimed && now - r.last_updated > timeout;
            &&& listed.contains(r.id) <==> stale
            &&& f.tasks.len() == s.tasks.len()
            &&& !stale ==> f.tasks[i] == r
            &&& stale ==> f.tasks[i] == (TaskRow {
                status: StatusKind::Pending,
                last_updated: now,
                slot_keys: None,
                capacity_charge: if r.slot_keys is Some {
                    None
                } else {
                    r.capacity_charge
                },
                ..r
            })
            &&& f == (Tables { tasks: f.tasks, slots: f.slots, ..s })
        }),
{
    let p = stale_claim(timeout, now);
    let r = s.tasks[i];
    lemma_ids_where_has(s.tasks, p, r.id);
    let f = requeued(s, timeout, now);
    if ids_where(s.tasks, p).contains(r.id) {
        let k = choose|k: int|
            0 <= k < s.tasks.len() && #[trigger] s.tasks[k].id == r.id && p(s.tasks[k]);
        assert(s.tasks[k].id == s.tasks[i].id);
    }
}

// ---------------------------------------------------------------------------
// Rows
// ---------------------------------------------------------------------------

/// Claiming takes pending tasks only, and only those asked for; starting takes the claimed
/// one, and notes when; a heartbeat refreshes a claim and nothing else.
pub proof fn claims_and_starts_move_one_step(r: TaskRow, ids: Seq<u128>, id: u128, now: int)
    ensures
        claim_row(ids, now)(r) == if ids.contains(r.id) && r.status == StatusKind::Pending {
            TaskRow { status: StatusKind::Claimed, last_updated: now, ..r }
        } else {
            r
        },
        running_row(id, now)(r) == if r.id == id && r.status == StatusKind::Claimed {
            TaskRow {
                status: StatusKind::Running,
                started_at: Some(now),
                last_updated: now,
                ..r
            }
        } else {
            r
        },
        beaten_row(id, now)(r) == if r.id == id && r.status == StatusKind::Claimed {
            TaskRow { last_updated: now, ..r }
        } else {
            r
        },
{
}

/// Only a task that no worker has can be paused, and only a paused one resumed. A resumed
/// task waits if a counter says so, and can be claimed if none does. Neither touches
/// anything else.
pub proof fn pausing_holds_a_task_back(r: TaskRow, id: u128, now: int)
    ensures
        ({
            let p = paused_row(id, now)(r);
            let free = r.status == StatusKind::Pending || r.status == StatusKind::Waiting;
            if r.id == id && free {
                p == (TaskRow { status: StatusKind::Paused, last_updated: now, ..r })
            } else {
                p == r
            }
        }),
        ({
            let u = resumed_row(id, now)(r);
            if r.id == id && r.status == StatusKind::Paused {
                &&& u == (TaskRow { status: u.status, last_updated: now, ..r })
                &&& u.status == StatusKind::Pending <==> r.wait_finished <= 0 && r.wait_success
                    <= 0
                &&& u.status == StatusKind::Waiting <==> r.wait_finished > 0 || r.wait_success
                    > 0
            } else {
                u == r
            }
        }),
{
}

/// The row of the task that ended, once the end has been carried out: it has given its
/// slots back, and is as it ended otherwise.
proof fn lemma_own_row(
    s: Tables,
    id: u128,
    status: StatusKind,
    dead_end_enabled: bool,
    notice: Notice,
    now: int,
    i: int,
)
    requires
        unique_ids(s.tasks),
        0 <= i < s.tasks.len(),
        s.tasks[i].id == id,
        is_end(s.tasks[i].status),
    ensures
        ({
            let f = finished(s, id, status, dead_end_enabled, notice, now);
            &&& f.tasks.len() == s.tasks.len()
            &&& f.tasks[i] == (TaskRow {
                slot_keys: None,
                capacity_charge: if s.tasks[i].slot_keys is Some {
                    None
                } else {
                    s.tasks[i].capacity_charge
                },
                ..s.tasks[i]
            })
        }),
{
    let spread = propagation(s.tasks, s.links, id, status, now);
    let top = dead_ends(spread, s.links, id, dead_end_enabled, now);
    propagation_frame(s.tasks, s.links, id, status, now);
    climb_frame(spread.rows, s.links, seq![id] + spread.failed, now);
    assert(propagation_step(s.tasks[i], spread.rows[i]));
    assert(climb_step(
        spread.rows[i],
        climb(spread.rows, s.links, seq![id] + spread.failed, now).rows[i],
    ));
    let ids = terminal_ids(id, spread.failed, top.canceled);
    assert(ids[0] == id);
    assert(ids.contains(id));
    assert(top.rows[i] == s.tasks[i]);
}

/// A task that a worker holds takes up what an update says: counts are added to its own,
/// what is given replaces what was there, and what is not given stays. A status ends it
/// now, with the reason given, and gives its slots back. A task that no worker holds is
/// left alone, and with it all tables.
pub proof fn updates_take_up_what_is_given(
    s: Tables,
    id: u128,
    dto: UpdateView,
    dead_end_enabled: bool,
    now: int,
    i: int,
)
    requires
        unique_ids(s.tasks),
        0 <= i < s.tasks.len(),
        s.tasks[i].id == id,
        dto.status is Some ==> is_end(dto.status->0),
    ensures
        ({
            let r = s.tasks[i];
            let f = after_update(s, id, dto, dead_end_enabled, now);
            if r.status != StatusKind::Claimed && r.status != StatusKind::Running {
                f == s
            } else {
                let u = f.tasks[i];
                &&& f.tasks.len() == s.tasks.len()
                &&& u == (TaskRow {
                    status: u.status,
                    success: u.success,
                    failures: u.failures,
                    metadata: u.metadata,
                    expected_count: u.expected_count,
                    priority: u.priority,
                    ended_at: u.ended_at,
                    failure_reason: u.failure_reason,
                    last_updated: now,
                    slot_keys: u.slot_keys,
                    capacity_charge: u.capacity_charge,
                    ..r
                })
                &&& dto.new_success matches Some(n) ==> u.success == r.success + n
                &&& dto.new_success is None ==> u.success == r.success
                &&& dto.new_failures matches Some(n) ==> u.failures == r.failures + n
                &&& dto.new_failures is None ==> u.failures == r.failures
                &&& dto.metadata matches Some(m) ==> u.metadata == m
                &&& dto.metadata is None ==> u.metadata == r.metadata
                &&& dto.expected_count matches Some(c) ==> u.expected_count == Some(c)
                &&& dto.expected_count is None ==> u.expected_count == r.expected_count
                &&& dto.priority matches Some(p) ==> u.priority == p
                &&& dto.priority is None ==> u.priority == r.priority
                &&& dto.status matches Some(x) ==> u.status == x && u.ended_at == Some(now)
                    && u.slot_keys is None && (dto.failure_reason is Some ==> u.failure_reason
                    == dto.failure_reason) && (dto.failure_reason is None ==> u.failure_reason
                    == r.failure_reason)
                &&& dto.status is None ==> u.status == r.status && u.ended_at == r.ended_at
                    && u.failure_reason == r.failure_reason && u.slot_keys == r.slot_keys
                    && u.capacity_charge == r.capacity_charge && f == (Tables {
                    tasks: s.tasks.update(i, u),
                    ..s
                })
            }
        }),
{
    let r = s.tasks[i];
    let f = after_update(s, id, dto, dead_end_enabled, now);
    if r.status == StatusKind::Claimed || r.status == StatusKind::Running {
        assert(is_active_task(s.tasks, id));
        let t = Tables { tasks: s.tasks.map_values(updated_row(id, dto, now)), ..s };
        assert forall|a: int, b: int|
            0 <= a < t.tasks.len() && 0 <= b < t.tasks.len() && #[trigger] t.tasks[a].id
                == #[trigger] t.tasks[b].id implies a == b by {
            assert(t.tasks[a].id == s.tasks[a].id && t.tasks[b].id == s.tasks[b].id);
        }
        if dto.status is Some {
            lemma_own_row(t, id, dto.status->0, dead_end_enabled, Notice::End, now, i);
        } else {
            assert forall|k: int| 0 <= k < s.tasks.len() && k != i implies #[trigger] t.tasks[k]
                == s.tasks[k] by {
                if s.tasks[k].id == id {
                    assert(s.tasks[k].id == s.tasks[i].id);
                }
            }
            assert(f.tasks =~= s.tasks.update(i, f.tasks[i]));
        }
    } else {
        if is_active_task(s.tasks, id) {
            let k = choose|k: int|
                0 <= k < s.tasks.len() && #[trigger] s.tasks[k].id == id
                    && s.tasks[k].status.active();
            assert(s.tasks[k].id == s.tasks[i].id);
        }
    }
}

/// The three ways in which a task ends without a report: it fails while a worker holds it,
/// a running one times out, or one that goes on is canceled. Each ends it now and gives its
/// slots back. A failure says why; a timeout says so and keeps the last sign of life; a
/// cancellation leaves the reason alone.
pub proof fn ends_are_noted(
    s: Tables,
    id: u128,
    reason: Seq<char>,
    dead_end_enabled: bool,
    notice: Notice,
    now: int,
    i: int,
)
    requires
        unique_ids(s.tasks),
        0 <= i < s.tasks.len(),
        s.tasks[i].id == id,
    ensures
        ({
            let r = s.tasks[i];
            let f = finished(
                Tables { tasks: s.tasks.map_values(failed_row(id, reason, now)), ..s },
                id,
                StatusKind::Failure,
                dead_end_enabled,
                notice,
                now,
            ).tasks[i];
            r.status == StatusKind::Claimed || r.status == StatusKind::Running ==> f == (TaskRow {
                status: StatusKind::Failure,
                failure_reason: Some(reason),
                ended_at: Some(now),
                last_updated: now,
                slot_keys: None,
                capacity_charge: f.capacity_charge,
                ..r
            })
        }),
        ({
            let r = s.tasks[i];
            let f = finished(
                Tables { tasks: s.tasks.map_values(timeout_row(id, now)), ..s },
                id,
                StatusKind::Failure,
                dead_end_enabled,
                notice,
                now,
            ).tasks[i];
            r.status == StatusKind::Running ==> f == (TaskRow {
                status: StatusKind::Failure,
                failure_reason: Some("Timeout"@),
                ended_at: Some(now),
                slot_keys: None,
                capacity_charge: f.capacity_charge,
                ..r
            })
        }),
        ({
            let r = s.tasks[i];
            let f = finished(
                Tables { tasks: s.tasks.map_values(cancel_task_row(id, now)), ..s },
                id,
                StatusKind::Canceled,
                dead_end_enabled,
                notice,
                now,
            ).tasks[i];
            f == (TaskRow {
                status: StatusKind::Canceled,
                ended_at: Some(now),
                last_updated: now,
                slot_keys: None,
                capacity_charge: f.capacity_charge,
                ..r
            })
        }),
        cancel_notice(s.tasks[i].status) == if s.tasks[i].status == StatusKind::Claimed
            || s.tasks[i].status == StatusKind::Running {
            Notice::Cancel
        } else {
            Notice::Silent
        },
{
    let a = Tables { tasks: s.tasks.map_values(failed_row(id, reason, now)), ..s };
    let b = Tables { tasks: s.tasks.map_values(timeout_row(id, now)), ..s };
    let c = Tables { tasks: s.tasks.map_values(cancel_task_row(id, now)), ..s };
    assert forall|x: int, y: int|
        0 <= x < a.tasks.len() && 0 <= y < a.tasks.len() && #[trigger] a.tasks[x].id
            == #[trigger] a.tasks[y].id implies x == y by {
        assert(a.tasks[x].id == s.tasks[x].id && a.tasks[y].id == s.tasks[y].id);
    }
    assert forall|x: int, y: int|
        0 <= x < b.tasks.len() && 0 <= y < b.tasks.len() && #[trigger] b.tasks[x].id
            == #[trigger] b.tasks[y].id implies x == y by {
        assert(b.tasks[x].id == s.tasks[x].id && b.tasks[y].id == s.tasks[y].id);
    }
    assert forall|x: int, y: int|
        0 <= x < c.tasks.len() && 0 <= y < c.tasks.len() && #[trigger] c.tasks[x].id
            == #[trigger] c.tasks[y].id implies x == y by {
        assert(c.tasks[x].id == s.tasks[x].id && c.tasks[y].id == s.tasks[y].id);
    }
    if s.tasks[i].status == StatusKind::Claimed || s.tasks[i].status == StatusKind::Running {
        lemma_own_row(a, id, StatusKind::Failure, dead_end_enabled, notice, now, i);
    }
    if s.tasks[i].status == StatusKind::Running {
        lemma_own_row(b, id, StatusKind::Failure, dead_end_enabled, notice, now, i);
    }
    lemma_own_row(c, id, StatusKind::Canceled, dead_end_enabled, notice, now, i);
}

/// Stopping a batch cancels its tasks that go on, gives their slots back, and leaves it
/// with nothing to wait for. What has ended, and what belongs to another batch, stays.
pub proof fn stopping_cancels_a_batch(s: Tables, batch: u128, now: int, i: int)
    requires
        0 <= i < s.tasks.len(),
    ensures
        ({
            let f = after_stop(s, batch, now);
            let r = s.tasks[i];
            &&& f.tasks.len() == s.tasks.len()
            &&& r.batch_id == Some(batch) && !is_end(r.status) ==> f.tasks[i] == (TaskRow {
                status: StatusKind::Canceled,
                failure_reason: Some("Batch stopped"@),
                ended_at: Some(now),
                last_updated: now,
                slot_keys: None,
                capacity_charge: f.tasks[i].capacity_charge,
                ..r
            })
            &&& unique_ids(s.tasks) && (r.batch_id != Some(batch) || is_end(r.status))
                ==> f.tasks[i] == r
            &&& f.batches.len() == s.batches.len()
            &&& forall|k: int|
                0 <= k < s.batches.len() ==> (if s.batches[k].id == batch {
                    (#[trigger] f.batches[k]).remaining == 0
                } else {
                    f.batches[k] == s.batches[k]
                })
            &&& f.links == s.links && f.ledger == s.ledger && f.actions == s.actions
                && f.archive == s.archive
        }),
{
    let f = after_stop(s, batch, now);
    let p = crate::db::task_lifecycle::batch_live(batch);
    lemma_ids_where_has(s.tasks, p, s.tasks[i].id);
    if ids_where(s.tasks, p).contains(s.tasks[i].id) && unique_ids(s.tasks) {
        let k = choose|k: int|
            0 <= k < s.tasks.len() && #[trigger] s.tasks[k].id == s.tasks[i].id && p(s.tasks[k]);
        assert(s.tasks[k].id == s.tasks[i].id);
    }
}

/// Dead ends are canceled where that is switched on, and only there. With it on, a task
/// with a child that just ended goes on only if another child goes on, or a canceled one
/// is marked to stop.
pub proof fn dead_ends_follow_the_setting(
    s: Tables,
    id: u128,
    status: StatusKind,
    dead_end_enabled: bool,
    notice: Notice,
    now: int,
)
    requires
        unique_ids(s.tasks),
    ensures
        ({
            let f = finished(s, id, status, dead_end_enabled, notice, now);
            &&& f.tasks.len() == s.tasks.len()
            &&& !dead_end_enabled ==> forall|i: int|
                0 <= i < s.tasks.len() && (#[trigger] f.tasks[i]).status == StatusKind::Canceled
                    ==> s.tasks[i].status == StatusKind::Canceled
            &&& dead_end_enabled ==> forall|i: int, y: u128|
                #![trigger s.tasks[i], follows(s.links, y, s.tasks[i].id)]
                0 <= i < s.tasks.len() && !is_end(f.tasks[i].status) && follows(
                    s.links,
                    y,
                    s.tasks[i].id,
                ) && (y == id || propagation(s.tasks, s.links, id, status, now).failed.contains(y))
                    ==> exists|x: u128| #[trigger]
                    follows(s.links, x, s.tasks[i].id) && (goes_on(f.tasks, x) || stopped_at(
                        s.tasks,
                        f.tasks,
                        x,
                    ))
        }),
{
    let f = finished(s, id, status, dead_end_enabled, notice, now);
    let spread = propagation(s.tasks, s.links, id, status, now);
    let top = dead_ends(spread, s.links, id, dead_end_enabled, now);
    propagation_frame(s.tasks, s.links, id, status, now);
    let ids = terminal_ids(id, spread.failed, top.canceled);
    let seeds = seq![id] + spread.failed;
    if !dead_end_enabled {
        assert forall|i: int|
            0 <= i < s.tasks.len() && (#[trigger] f.tasks[i]).status
                == StatusKind::Canceled implies s.tasks[i].status == StatusKind::Canceled by {
            assert(propagation_step(s.tasks[i], spread.rows[i]));
        }
    } else {
        climb_frame(spread.rows, s.links, seeds, now);
        dead_ends_are_canceled(spread.rows, s.links, seeds, now);
        assert forall|i: int, y: u128|
            #![trigger s.tasks[i], follows(s.links, y, s.tasks[i].id)]
            0 <= i < s.tasks.len() && !is_end(f.tasks[i].status) && follows(
                s.links,
                y,
                s.tasks[i].id,
            ) && (y == id || spread.failed.contains(y)) implies exists|x: u128| #[trigger]
            follows(s.links, x, s.tasks[i].id) && (goes_on(f.tasks, x) || stopped_at(
                s.tasks,
                f.tasks,
                x,
            )) by {
            assert(seq![id][0] == id);
            lemma_concat_has(seq![id], spread.failed, y);
            assert(seeds.contains(y));
            assert(propagation_step(s.tasks[i], spread.rows[i]));
            assert(spread.rows[i].id == s.tasks[i].id);
            let x = choose|x: u128| #[trigger]
                follows(s.links, x, spread.rows[i].id) && (goes_on(top.rows, x) || stopped_at(
                    spread.rows,
                    top.rows,
                    x,
                ));
            if goes_on(top.rows, x) {
                let k = choose|k: int|
                    0 <= k < top.rows.len() && (#[trigger] top.rows[k]).id == x && !is_end(
                        top.rows[k].status,
                    );
                assert(f.tasks[k].id == x && !is_end(f.tasks[k].status));
                assert(goes_on(f.tasks, x));
            } else {
                let k = choose|k: int|
                    0 <= k < spread.rows.len() && (#[trigger] spread.rows[k]).id == x && !is_end(
                        spread.rows[k].status,
                    ) && top.rows[k].status == StatusKind::Canceled
                        && spread.rows[k].dead_end_barrier;
                assert(propagation_step(s.tasks[k], spread.rows[k]));
                assert(s.tasks[k].id == x);
                assert(f.tasks[k].status == StatusKind::Canceled);
                assert(stopped_at(s.tasks, f.tasks, x));
            }
        }
    }
}

} // verus!
