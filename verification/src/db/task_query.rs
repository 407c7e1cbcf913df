//! Finding, listing and timing out tasks.

use crate::db::task_crud::{charges_ok, release_slots_for_tasks, released_row, released_slot};
use crate::db::task_lifecycle::{
    find_task, lemma_step_keeps_wf, lemma_touch_one,
};
use crate::db::webhook_outbox::page;
use crate::dtos::query::{Filter, Pagination};
use crate::dtos::{basic, basic_rows, BasicRow, BasicTaskDto, DagDto, TaskDto};
use crate::models::{
    archive_rows, rows, slot_rows, Action, Link, RuleSlot, StatusKind, Task, TaskArchive, TaskRow,
};
use crate::order::{first_n, order, pick, sort_positions, SortKey};
use crate::store::{Store, Tables};
use crate::tally::{
    has_id, ids_where, lemma_filter_take, lemma_ids_where_none, lemma_ids_where_take,
};
use crate::text::{escape_like_pattern, like_escaped};
use crate::workers::finish::{finish_task, finished, reported, Finish, Notice};
use vstd::prelude::*;

verus! {

// ---------------------------------------------------------------------------
// Timeouts
// ---------------------------------------------------------------------------

/// A running task without activity for longer than its timeout.
pub open spec fn timed_out(now: int) -> spec_fn(TaskRow) -> bool {
    |r: TaskRow|
        r.status == StatusKind::Running && r.started_at is Some && r.last_updated < now - r.timeout
            * 1_000_000
}

/// The first `limit` running tasks that exceeded their timeout since their last
/// activity. Nothing is changed: see [`timeout_task_and_propagate`].
pub fn find_timed_out_tasks(tasks: &Vec<Task>, limit: i64, now: i64) -> (r: Vec<u128>)
    requires
        limit >= 0,
    ensures
        r@ == first_n(ids_where(rows(tasks@), timed_out(now as int)), limit as int),
{
    let ghost rs = rows(tasks@);
    let ghost p = timed_out(now as int);
    let mut r: Vec<u128> = Vec::new();
    let mut i: usize = 0;
    proof {
        lemma_ids_where_none(rs, p);
    }
    while i < tasks.len()
        invariant
            i <= tasks.len(),
            rs == rows(tasks@),
            p == timed_out(now as int),
            r@ == ids_where(rs.take(i as int), p),
        decreases tasks.len() - i,
    {
        proof {
            lemma_ids_where_take(rs, p, i as int);
            assert(rs[i as int] == tasks@[i as int]@);
        }
        let t: &Task = &tasks[i];
        if t.status == StatusKind::Running && t.started_at.is_some() && (t.last_updated as i128)
            < now as i128 - t.timeout as i128 * 1_000_000 {
            r.push(t.id);
        }
        i += 1;
    }
    assert(rs.take(i as int) =~= rs);
    if (limit as u128) < (r.len() as u128) {
        r.truncate(limit as usize);
        assert(r@ =~= first_n(ids_where(rs, p), limit as int));
    }
    r
}

/// A task that timed out. Its last activity is kept.
pub open spec fn timeout_row(id: u128, now: int) -> spec_fn(TaskRow) -> TaskRow {
    |r: TaskRow|
        if r.id == id && r.status == StatusKind::Running {
            TaskRow {
                status: StatusKind::Failure,
                ended_at: Some(now),
                failure_reason: Some("Timeout"@),
                ..r
            }
        } else {
            r
        }
}

/// Marks one running task as timed out and carries out the consequences, in one
/// transaction. `None`, and nothing changed, where the task is not running any
/// more. Otherwise answers the task as it was, and what followed.
pub fn timeout_task_and_propagate(
    store: &mut Store,
    task_id: u128,
    dead_end_enabled: bool,
    now: i64,
) -> (r: Option<(Task, Finish)>)
    requires
        old(store)@.wf(),
    ensures
        ({
            let s = old(store)@;
            if crate::db::task_crud::has_status(s.tasks, task_id, StatusKind::Running) {
                &&& r matches Some(x) && s.tasks.contains(x.0@) && x.0.id == task_id
                &&& final(store)@ == finished(
                    (Tables {
                        tasks: s.tasks.map_values(timeout_row(task_id, now as int)),
                        ..s
                    }),
                    task_id,
                    StatusKind::Failure,
                    dead_end_enabled,
                    Notice::End,
                    now as int,
                )
                &&& reported(
                    (Tables {
                        tasks: s.tasks.map_values(timeout_row(task_id, now as int)),
                        ..s
                    }),
                    task_id,
                    StatusKind::Failure,
                    dead_end_enabled,
                    Notice::End,
                    now as int,
                    (r->0).1,
                )
            } else {
                &&& r is None
                &&& final(store)@ == s
            }
        }),
{
    let ghost s = store@;
    let i: usize = match find_task(&store.tasks, task_id) {
        Some(i) => i,
        None => {
            return None;
        },
    };
    assert(s.tasks[i as int] == store.tasks@[i as int]@);
    if store.tasks[i].status != StatusKind::Running {
        proof {
            if crate::db::task_crud::has_status(s.tasks, task_id, StatusKind::Running) {
                let k = choose|k: int|
                    0 <= k < s.tasks.len() && #[trigger] s.tasks[k].id == task_id
                        && s.tasks[k].status == StatusKind::Running;
                assert(s.tasks[k].id == s.tasks[i as int].id);
            }
        }
        return None;
    }
    let task: Task = store.tasks[i].clone();
    store.tasks[i].status = StatusKind::Failure;
    store.tasks[i].ended_at = Some(now);
    store.tasks[i].failure_reason = Some("Timeout".to_string());
    let ghost step = timeout_row(task_id, now as int);
    proof {
        lemma_touch_one(s.tasks, i as int, step);
        assert(rows(store.tasks@) =~= s.tasks.update(i as int, step(s.tasks[i as int])));
        let t = store@;
        assert(t =~= Tables { tasks: s.tasks.map_values(step), ..s });
        lemma_step_keeps_wf(s, t);
        assert(s.tasks[i as int] == task@);
    }
    let finish: Finish = finish_task(
        store,
        task_id,
        StatusKind::Failure,
        dead_end_enabled,
        Notice::End,
        now,
    );
    Some((task, finish))
}

/// A claim that was not started within `timeout` microseconds.
pub open spec fn stale_claim(timeout: int, now: int) -> spec_fn(TaskRow) -> bool {
    |r: TaskRow| r.status == StatusKind::Claimed && r.last_updated < now - timeout
}

/// A task whose claim went stale.
pub open spec fn requeued_row(timeout: int, now: int) -> spec_fn(TaskRow) -> TaskRow {
    |r: TaskRow|
        if stale_claim(timeout, now)(r) {
            TaskRow { status: StatusKind::Pending, last_updated: now, ..r }
        } else {
            r
        }
}

/// Moves claimed tasks that were not started within `claim_timeout` microseconds
/// back to `Pending`, and releases the slots that they held. Returns those tasks.
pub fn requeue_stale_claimed_tasks(
    tasks: &mut Vec<Task>,
    slots: &mut Vec<RuleSlot>,
    claim_timeout: u128,
    now: i64,
) -> (r: Vec<u128>)
    requires
        charges_ok(rows(old(tasks)@)),
    ensures
        ({
            let before = rows(old(tasks)@);
            let timeout = if claim_timeout <= i64::MAX {
                claim_timeout as int
            } else {
                i64::MAX as int
            };
            let ids = ids_where(before, stale_claim(timeout, now as int));
            let moved = before.map_values(requeued_row(timeout, now as int));
            &&& r@ == ids
            &&& rows(final(tasks)@) == moved.map_values(released_row(ids))
            &&& slot_rows(final(slots)@) == slot_rows(old(slots)@).map_values(
                released_slot(moved, ids),
            )
        }),
{
    let cap: i128 = if claim_timeout <= i64::MAX as u128 {
        claim_timeout as i128
    } else {
        i64::MAX as i128
    };
    let since: i128 = now as i128 - cap;
    let ghost before = tasks@;
    let ghost rs = rows(before);
    let ghost p = stale_claim(cap as int, now as int);
    let ghost step = requeued_row(cap as int, now as int);
    let mut ids: Vec<u128> = Vec::new();
    let mut i: usize = 0;
    proof {
        lemma_ids_where_none(rs, p);
    }
    while i < tasks.len()
        invariant
            i <= tasks.len(),
            tasks@.len() == before.len(),
            rs == rows(before),
            since == now - cap,
            p == stale_claim(cap as int, now as int),
            step == requeued_row(cap as int, now as int),
            forall|k: int| 0 <= k < i ==> (#[trigger] tasks@[k])@ == step(before[k]@),
            forall|k: int| i <= k < before.len() ==> (#[trigger] tasks@[k]) == before[k],
            ids@ == ids_where(rs.take(i as int), p),
        decreases tasks.len() - i,
    {
        proof {
            lemma_ids_where_take(rs, p, i as int);
            assert(tasks@[i as int] == before[i as int]);
            assert(rs[i as int] == before[i as int]@);
        }
        if tasks[i].status == StatusKind::Claimed && (tasks[i].last_updated as i128) < since {
            ids.push(tasks[i].id);
            tasks[i].status = StatusKind::Pending;
            tasks[i].last_updated = now;
        }
        i += 1;
    }
    proof {
        assert(rs.take(i as int) =~= rs);
        assert(rows(tasks@) =~= rs.map_values(step));
        assert forall|k: int|
            0 <= k < rows(tasks@).len() && (
            #[trigger] rows(tasks@)[k]).capacity_charge is Some implies rows(
            tasks@,
        )[k].capacity_charge->0 >= 0 by {
            assert(rows(tasks@)[k] == step(rs[k]));
            assert(rs[k].capacity_charge is Some);
        }
    }
    release_slots_for_tasks(tasks, slots, &ids);
    ids
}

// ---------------------------------------------------------------------------
// Pages of pending tasks
// ---------------------------------------------------------------------------

/// Where a page of pending tasks ended: the order keys of its last task.
#[derive(Clone, Copy, Debug, PartialEq, Eq, Structural)]
pub struct PendingCursor {
    /// Priority of the last task.
    pub priority: i32,
    /// Creation instant of the last task.
    pub created_at: i64,
    /// Identifier of the last task.
    pub id: u128,
}

impl PendingCursor {
    /// The cursor after a task.
    pub fn of_task(t: &Task) -> (r: Self)
        ensures
            r.priority == t@.priority,
            r.created_at == t@.created_at,
            r.id == t.id,
    {
        PendingCursor { priority: t.priority, created_at: t.created_at, id: t.id }
    }
}

/// The sort key of a pending task: descending priority, then ascending creation
/// instant, then ascending identifier.
pub open spec fn pending_key(r: TaskRow) -> SortKey {
    ((-r.priority) as i128, r.created_at as i128, r.id)
}

/// Whether a task comes strictly after the cursor in that order.
pub open spec fn after_cursor(r: TaskRow, c: PendingCursor) -> bool {
    r.priority < c.priority || (r.priority == c.priority && r.created_at > c.created_at) || (
    r.priority == c.priority && r.created_at == c.created_at && r.id > c.id)
}

/// The pending tasks after a cursor, or all.
pub open spec fn pending_after(cursor: Option<PendingCursor>) -> spec_fn(TaskRow) -> bool {
    |r: TaskRow|
        r.status == StatusKind::Pending && (match cursor {
            Some(c) => after_cursor(r, c),
            None => true,
        })
}

/// The rows that satisfy `p`, sorted by `key`.
pub open spec fn sorted_where(
    tasks: Seq<TaskRow>,
    p: spec_fn(TaskRow) -> bool,
    key: spec_fn(TaskRow) -> SortKey,
) -> Seq<TaskRow> {
    let found = tasks.filter(p);
    pick(found, order(found.map_values(key)))
}

/// One page of pending tasks: the first `page_size` after the cursor, in order
/// of descending priority, ascending creation instant and ascending identifier.
pub fn list_pending_page(tasks: &Vec<Task>, cursor: Option<&PendingCursor>, page_size: i64) -> (r:
    Vec<Task>)
    requires
        page_size >= 0,
    ensures
        rows(r@) == first_n(
            sorted_where(
                rows(tasks@),
                pending_after(
                    match cursor {
                        Some(c) => Some(*c),
                        None => None,
                    },
                ),
                |t: TaskRow| pending_key(t),
            ),
            page_size as int,
        ),
{
    let ghost cur = match cursor {
        Some(c) => Some(*c),
        None => None::<PendingCursor>,
    };
    let ghost rs = rows(tasks@);
    let ghost p = pending_after(cur);
    let ghost kf = |t: TaskRow| pending_key(t);
    let mut found: Vec<usize> = Vec::new();
    let mut keys: Vec<SortKey> = Vec::new();
    let mut i: usize = 0;
    proof {
        reveal(Seq::filter);
        assert(rs.take(0).filter(p) =~= Seq::empty());
    }
    while i < tasks.len()
        invariant
            i <= tasks.len(),
            rs == rows(tasks@),
            cur == (match cursor {
                Some(c) => Some(*c),
                None => None::<PendingCursor>,
            }),
            p == pending_after(cur),
            kf == (|t: TaskRow| pending_key(t)),
            found@.len() == rs.take(i as int).filter(p).len(),
            keys@.len() == found@.len(),
            forall|k: int|
                0 <= k < found@.len() ==> #[trigger] found@[k] < i && rs[found@[k] as int]
                    == rs.take(i as int).filter(p)[k] && keys@[k] == kf(rs[found@[k] as int]),
        decreases tasks.len() - i,
    {
        proof {
            lemma_filter_take(rs, p, i as int);
            assert(rs[i as int] == tasks@[i as int]@);
        }
        let t: &Task = &tasks[i];
        let after: bool = match cursor {
            Some(c) => t.priority < c.priority || (t.priority == c.priority && t.created_at
                > c.created_at) || (t.priority == c.priority && t.created_at == c.created_at && t.id
                > c.id),
            None => true,
        };
        if t.status == StatusKind::Pending && after {
            found.push(i);
            keys.push((-(t.priority as i128), t.created_at as i128, t.id));
        }
        i += 1;
    }
    let ghost sel = rs.filter(p);
    proof {
        assert(rs.take(i as int) =~= rs);
        assert forall|k: int| 0 <= k < keys@.len() implies keys@[k] == sel.map_values(kf)[k] by {
            assert(rs[found@[k] as int] == sel[k]);
        }
        assert(keys@ =~= sel.map_values(kf));
    }
    take_sorted(tasks, &found, &keys, page_size, 0, Ghost(sel))
}

/// The rows at `found`, sorted by `keys`: the page of `limit` rows after the
/// first `offset` ones.
fn take_sorted(
    tasks: &Vec<Task>,
    found: &Vec<usize>,
    keys: &Vec<SortKey>,
    limit: i64,
    offset: i64,
    Ghost(sel): Ghost<Seq<TaskRow>>,
) -> (r: Vec<Task>)
    requires
        limit >= 0,
        offset >= 0,
        found@.len() == keys@.len(),
        sel.len() == keys@.len(),
        forall|k: int|
            0 <= k < found@.len() ==> #[trigger] found@[k] < tasks@.len()
                && tasks@[found@[k] as int]@ == sel[k],
    ensures
        rows(r@) == page(pick(sel, order(keys@)), limit as int, offset as int),
        offset == 0 ==> rows(r@) == first_n(pick(sel, order(keys@)), limit as int),
{
    let at: Vec<usize> = sort_positions(keys);
    let ghost up = |k: usize| k as int;
    let ghost sorted = pick(sel, order(keys@));
    let mut r: Vec<Task> = Vec::new();
    assert(at@.map_values(up).len() == at@.len());
    if (offset as u128) < (at.len() as u128) {
        let start: usize = offset as usize;
        let mut j: usize = start;
        while j < at.len() && ((j - start) as u128) < (limit as u128)
            invariant
                start <= j <= at.len(),
                start == offset,
                j - start <= limit,
                up == (|k: usize| k as int),
                at@.map_values(up) == order(keys@),
                at@.len() == keys@.len(),
                found@.len() == keys@.len(),
                sel.len() == keys@.len(),
                sorted == pick(sel, order(keys@)),
                sorted.len() == at@.len(),
                forall|k: int| 0 <= k < at@.len() ==> #[trigger] at@[k] < keys@.len(),
                forall|k: int|
                    0 <= k < found@.len() ==> #[trigger] found@[k] < tasks@.len()
                        && tasks@[found@[k] as int]@ == sel[k],
                rows(r@) =~= sorted.subrange(start as int, j as int),
            decreases at.len() - j,
        {
            let row: Task = tasks[found[at[j]]].clone();
            proof {
                assert(order(keys@)[j as int] == at@.map_values(up)[j as int]);
                assert(sorted[j as int] == row@);
                assert(sorted.subrange(start as int, j + 1) =~= sorted.subrange(
                    start as int,
                    j as int,
                ).push(row@));
                assert(rows(r@.push(row)) =~= rows(r@).push(row@));
            }
            r.push(row);
            j += 1;
        }
        assert(rows(r@) =~= page(sorted, limit as int, offset as int));
    } else {
        assert(rows(r@) =~= page(sorted, limit as int, offset as int));
    }
    assert(offset == 0 ==> page(sorted, limit as int, 0) =~= first_n(sorted, limit as int));
    r
}

/// A task on a page never comes again on a page after its cursor, and a task that
/// does come later follows it in the order.
pub proof fn cursor_splits_pages(t: TaskRow, u: TaskRow, c: PendingCursor)
    requires
        i32::MIN <= t.priority <= i32::MAX,
        i32::MIN <= u.priority <= i32::MAX,
        i64::MIN <= t.created_at <= i64::MAX,
        i64::MIN <= u.created_at <= i64::MAX,
        c.priority == t.priority,
        c.created_at == t.created_at,
        c.id == t.id,
    ensures
        !after_cursor(t, c),
        after_cursor(u, c) <==> !crate::order::key_le(pending_key(u), pending_key(t)),
{
}

// ---------------------------------------------------------------------------
// Listing
// ---------------------------------------------------------------------------

/// A task that a filter lets through. Name and kind are compared as patterns, an
/// empty one matches everything; `metadata_matches` are the tasks whose metadata
/// contains the JSON that the filter asks for.
pub open spec fn matches_filter(f: Filter, metadata_matches: Seq<u128>) -> spec_fn(
    TaskRow,
) -> bool {
    |t: TaskRow|
        {
            &&& f.name@.len() == 0 || like_escaped(t.name) == f.name@
            &&& f.kind@.len() == 0 || like_escaped(t.kind) == f.kind@
            &&& f.metadata is None || metadata_matches.contains(t.id)
            &&& f.status is None || f.status == Some(t.status)
            &&& f.batch_id is None || f.batch_id == t.batch_id
            &&& f.timeout is None || t.timeout == f.timeout->0
        }
}

/// Newest first.
pub open spec fn newest_key(t: TaskRow) -> SortKey {
    ((-t.created_at) as i128, 0i128, 0u128)
}

/// Oldest first.
pub open spec fn oldest_key(t: TaskRow) -> SortKey {
    (t.created_at as i128, 0i128, 0u128)
}

/// The summaries of tasks.
pub open spec fn summaries_of(tasks: Seq<TaskRow>) -> Seq<BasicRow> {
    tasks.map_values(|r: TaskRow| basic(r))
}

/// Summarizes tasks.
fn summarize(tasks: &Vec<Task>) -> (r: Vec<BasicTaskDto>)
    ensures
        basic_rows(r@) == summaries_of(rows(tasks@)),
{
    let ghost rs = rows(tasks@);
    let mut r: Vec<BasicTaskDto> = Vec::new();
    let mut i: usize = 0;
    assert(basic_rows(r@) =~= summaries_of(rs.take(0)));
    while i < tasks.len()
        invariant
            i <= tasks.len(),
            rs == rows(tasks@),
            basic_rows(r@) == summaries_of(rs.take(i as int)),
        decreases tasks.len() - i,
    {
        let dto: BasicTaskDto = BasicTaskDto::of_task(&tasks[i]);
        proof {
            assert(rs[i as int] == tasks@[i as int]@);
            assert(rs.take(i + 1) =~= rs.take(i as int).push(rs[i as int]));
            assert(summaries_of(rs.take(i + 1)) =~= summaries_of(rs.take(i as int)).push(dto@));
            assert(basic_rows(r@.push(dto)) =~= basic_rows(r@).push(dto@));
        }
        r.push(dto);
        i += 1;
    }
    assert(rs.take(i as int) =~= rs);
    r
}

/// Whether a filter lets a task through.
fn passes(f: &Filter, metadata_matches: &Vec<u128>, t: &Task) -> (r: bool)
    ensures
        r == matches_filter(*f, metadata_matches@)(t@),
{
    if f.name.as_str().unicode_len() != 0 && escape_like_pattern(t.name.as_str()) != f.name {
        return false;
    }
    if f.kind.as_str().unicode_len() != 0 && escape_like_pattern(t.kind.as_str()) != f.kind {
        return false;
    }
    if f.metadata.is_some() && !has_id(metadata_matches, t.id) {
        return false;
    }
    if let Some(s) = f.status {
        if s != t.status {
            return false;
        }
    }
    if let Some(b) = f.batch_id {
        match t.batch_id {
            Some(c) => {
                if b != c {
                    return false;
                }
            },
            None => {
                return false;
            },
        }
    }
    if let Some(n) = f.timeout {
        if n != t.timeout {
            return false;
        }
    }
    true
}

/// Lists the tasks that a filter lets through, newest first: one page of them.
pub fn list_task_filtered_paged(
    tasks: &Vec<Task>,
    pagination: Pagination,
    filter: &Filter,
    metadata_matches: &Vec<u128>,
) -> (r: Vec<BasicTaskDto>)
    requires
        pagination.limit >= 0,
        pagination.offset >= 0,
    ensures
        basic_rows(r@) == summaries_of(
            page(
                sorted_where(
                    rows(tasks@),
                    matches_filter(*filter, metadata_matches@),
                    |t: TaskRow| newest_key(t),
                ),
                pagination.limit as int,
                pagination.offset as int,
            ),
        ),
{
    let ghost rs = rows(tasks@);
    let ghost p = matches_filter(*filter, metadata_matches@);
    let ghost kf = |t: TaskRow| newest_key(t);
    let mut found: Vec<usize> = Vec::new();
    let mut keys: Vec<SortKey> = Vec::new();
    let mut i: usize = 0;
    proof {
        reveal(Seq::filter);
        assert(rs.take(0).filter(p) =~= Seq::empty());
    }
    while i < tasks.len()
        invariant
            i <= tasks.len(),
            rs == rows(tasks@),
            p == matches_filter(*filter, metadata_matches@),
            kf == (|t: TaskRow| newest_key(t)),
            found@.len() == rs.take(i as int).filter(p).len(),
            keys@.len() == found@.len(),
            forall|k: int|
                0 <= k < found@.len() ==> #[trigger] found@[k] < i && rs[found@[k] as int]
                    == rs.take(i as int).filter(p)[k] && keys@[k] == kf(rs[found@[k] as int]),
        decreases tasks.len() - i,
    {
        proof {
            lemma_filter_take(rs, p, i as int);
            assert(rs[i as int] == tasks@[i as int]@);
        }
        let t: &Task = &tasks[i];
        if passes(filter, metadata_matches, t) {
            found.push(i);
            keys.push((-(t.created_at as i128), 0i128, 0u128));
        }
        i += 1;
    }
    let ghost sel = rs.filter(p);
    proof {
        assert(rs.take(i as int) =~= rs);
        assert forall|k: int| 0 <= k < keys@.len() implies keys@[k] == sel.map_values(kf)[k] by {
            assert(rs[found@[k] as int] == sel[k]);
        }
        assert(keys@ =~= sel.map_values(kf));
    }
    let listed: Vec<Task> = take_sorted(
        tasks,
        &found,
        &keys,
        pagination.limit,
        pagination.offset,
        Ghost(sel),
    );
    summarize(&listed)
}

/// The tasks of a batch.
pub open spec fn in_batch(batch: u128) -> spec_fn(TaskRow) -> bool {
    |t: TaskRow| t.batch_id == Some(batch)
}

/// The links between tasks of `ids`.
pub open spec fn joins(ids: Seq<u128>) -> spec_fn(Link) -> bool {
    |l: Link| ids.contains(l.parent_id) && ids.contains(l.child_id)
}

/// The graph of a batch: its tasks, oldest first, and the links between them.
pub fn get_dag_for_batch(tasks: &Vec<Task>, links: &Vec<Link>, batch: u128) -> (r: DagDto)
    ensures
        basic_rows(r.tasks@) == summaries_of(
            sorted_where(rows(tasks@), in_batch(batch), |t: TaskRow| oldest_key(t)),
        ),
        r.links@ == links@.filter(joins(ids_where(rows(tasks@), in_batch(batch)))),
{
    let ghost rs = rows(tasks@);
    let ghost p = in_batch(batch);
    let ghost kf = |t: TaskRow| oldest_key(t);
    let mut found: Vec<usize> = Vec::new();
    let mut keys: Vec<SortKey> = Vec::new();
    let mut ids: Vec<u128> = Vec::new();
    let mut i: usize = 0;
    proof {
        reveal(Seq::filter);
        assert(rs.take(0).filter(p) =~= Seq::empty());
        lemma_ids_where_none(rs, p);
    }
    while i < tasks.len()
        invariant
            i <= tasks.len(),
            rs == rows(tasks@),
            p == in_batch(batch),
            kf == (|t: TaskRow| oldest_key(t)),
            ids@ == ids_where(rs.take(i as int), p),
            found@.len() == rs.take(i as int).filter(p).len(),
            keys@.len() == found@.len(),
            forall|k: int|
                0 <= k < found@.len() ==> #[trigger] found@[k] < i && rs[found@[k] as int]
                    == rs.take(i as int).filter(p)[k] && keys@[k] == kf(rs[found@[k] as int]),
        decreases tasks.len() - i,
    {
        proof {
            lemma_filter_take(rs, p, i as int);
            lemma_ids_where_take(rs, p, i as int);
            assert(rs[i as int] == tasks@[i as int]@);
        }
        let t: &Task = &tasks[i];
        if let Some(b) = t.batch_id {
            if b == batch {
                found.push(i);
                keys.push((t.created_at as i128, 0i128, 0u128));
                ids.push(t.id);
            }
        }
        i += 1;
    }
    let ghost sel = rs.filter(p);
    proof {
        assert(rs.take(i as int) =~= rs);
        assert forall|k: int| 0 <= k < keys@.len() implies keys@[k] == sel.map_values(kf)[k] by {
            assert(rs[found@[k] as int] == sel[k]);
        }
        assert(keys@ =~= sel.map_values(kf));
    }
    let listed: Vec<Task> = all_sorted(tasks, &found, &keys, Ghost(sel));
    let ghost q = joins(ids@);
    let mut between: Vec<Link> = Vec::new();
    let mut j: usize = 0;
    proof {
        assert(links@.take(0).filter(q) =~= Seq::empty());
    }
    while j < links.len()
        invariant
            j <= links.len(),
            q == joins(ids@),
            between@ == links@.take(j as int).filter(q),
        decreases links.len() - j,
    {
        proof {
            lemma_filter_take(links@, q, j as int);
        }
        if has_id(&ids, links[j].parent_id) && has_id(&ids, links[j].child_id) {
            between.push(links[j]);
        }
        j += 1;
    }
    assert(links@.take(j as int) =~= links@);
    DagDto { tasks: summarize(&listed), links: between }
}

/// The rows at `found`, sorted by `keys`.
fn all_sorted(
    tasks: &Vec<Task>,
    found: &Vec<usize>,
    keys: &Vec<SortKey>,
    Ghost(sel): Ghost<Seq<TaskRow>>,
) -> (r: Vec<Task>)
    requires
        found@.len() == keys@.len(),
        sel.len() == keys@.len(),
        forall|k: int|
            0 <= k < found@.len() ==> #[trigger] found@[k] < tasks@.len()
                && tasks@[found@[k] as int]@ == sel[k],
    ensures
        rows(r@) == pick(sel, order(keys@)),
{
    let at: Vec<usize> = sort_positions(keys);
    let ghost up = |k: usize| k as int;
    let ghost sorted = pick(sel, order(keys@));
    let mut r: Vec<Task> = Vec::new();
    let mut j: usize = 0;
    assert(at@.map_values(up).len() == at@.len());
    while j < at.len()
        invariant
            j <= at.len(),
            up == (|k: usize| k as int),
            at@.map_values(up) == order(keys@),
            at@.len() == keys@.len(),
            found@.len() == keys@.len(),
            sel.len() == keys@.len(),
            sorted == pick(sel, order(keys@)),
            sorted.len() == at@.len(),
            forall|k: int| 0 <= k < at@.len() ==> #[trigger] at@[k] < keys@.len(),
            forall|k: int|
                0 <= k < found@.len() ==> #[trigger] found@[k] < tasks@.len()
                    && tasks@[found@[k] as int]@ == sel[k],
            rows(r@) =~= sorted.take(j as int),
        decreases at.len() - j,
    {
        let row: Task = tasks[found[at[j]]].clone();
        proof {
            assert(order(keys@)[j as int] == at@.map_values(up)[j as int]);
            assert(sorted[j as int] == row@);
            assert(sorted.take(j + 1) =~= sorted.take(j as int).push(row@));
            assert(rows(r@.push(row)) =~= rows(r@).push(row@));
        }
        r.push(row);
        j += 1;
    }
    assert(sorted.take(j as int) =~= sorted);
    r
}

// ---------------------------------------------------------------------------
// One task
// ---------------------------------------------------------------------------

/// The actions of a task.
pub open spec fn actions_of(id: u128) -> spec_fn(Action) -> bool {
    |a: Action| a.task_id == id
}

/// Finds a task with its actions. A task that retention moved away is served from
/// the archive, which keeps no actions.
pub fn find_detailed_task_by_id(
    tasks: &Vec<Task>,
    actions: &Vec<Action>,
    archive: &Vec<TaskArchive>,
    id: u128,
) -> (r: Option<TaskDto>)
    ensures
        match r {
            Some(dto) => {
                ||| (exists|i: int|
                    0 <= i < tasks@.len() && #[trigger] rows(tasks@)[i] == dto.task@
                        && dto.task@.id == id) && dto.actions@ == actions@.filter(actions_of(id))
                ||| !crate::db::task_lifecycle::is_task(rows(tasks@), id) && (exists|i: int|
                    0 <= i < archive@.len() && #[trigger] archive_rows(archive@)[i].task
                        == dto.task@ && dto.task@.id == id) && dto.actions@.len() == 0
            },
            None => !crate::db::task_lifecycle::is_task(rows(tasks@), id) && forall|i: int|
                0 <= i < archive@.len() ==> (#[trigger] archive_rows(archive@)[i]).task.id != id,
        },
{
    if let Some(i) = find_task(tasks, id) {
        let ghost p = actions_of(id);
        let mut found: Vec<Action> = Vec::new();
        let mut j: usize = 0;
        proof {
            reveal(Seq::filter);
            assert(actions@.take(0).filter(p) =~= Seq::empty());
        }
        while j < actions.len()
            invariant
                j <= actions.len(),
                p == actions_of(id),
                found@ == actions@.take(j as int).filter(p),
            decreases actions.len() - j,
        {
            proof {
                lemma_filter_take(actions@, p, j as int);
            }
            if actions[j].task_id == id {
                found.push(actions[j].clone());
            }
            j += 1;
        }
        assert(actions@.take(j as int) =~= actions@);
        assert(rows(tasks@)[i as int] == tasks@[i as int]@);
        return Some(TaskDto { task: tasks[i].clone(), actions: found });
    }
    find_archived_task_by_id(archive, id)
}

/// Finds an archived task, without actions.
fn find_archived_task_by_id(archive: &Vec<TaskArchive>, id: u128) -> (r: Option<TaskDto>)
    ensures
        match r {
            Some(dto) => dto.actions@.len() == 0 && dto.task@.id == id && exists|i: int|
                0 <= i < archive@.len() && #[trigger] archive_rows(archive@)[i].task
                    == dto.task@,
            None => forall|i: int|
                0 <= i < archive@.len() ==> (#[trigger] archive_rows(archive@)[i]).task.id != id,
        },
{
    let mut i: usize = 0;
    while i < archive.len()
        invariant
            i <= archive.len(),
            forall|k: int|
                0 <= k < i ==> (#[trigger] archive_rows(archive@)[k]).task.id != id,
        decreases archive.len() - i,
    {
        assert(archive_rows(archive@)[i as int] == archive@[i as int]@);
        if archive[i].task.id == id {
            assert(archive_rows(archive@)[i as int].task == archive@[i as int].task@);
            return Some(TaskDto { task: archive[i].task.clone(), actions: Vec::new() });
        }
        i += 1;
    }
    None
}

} // verus!
