//! What listings hold, and in which order.

use crate::db::batch_listing::{ruled_row, stats_of, unstarted, BatchStats};
use crate::db::task_lifecycle::{batch_tasks, batch_tasks_in};
use crate::db::task_query::{
    actions_of, in_batch, joins, matches_filter, newest_key, oldest_key, pending_after, pending_key,
    sorted_where, summaries_of, PendingCursor,
};
use crate::db::webhook_outbox::{deliveries, page, recency_key};
use crate::dtos::query::{
    effective_page, effective_size, filter_of, status_named, Filter, FilterDto,
};
use crate::dtos::BasicRow;
use crate::models::{
    Action, LedgerRow, Link, OutboxRow, StatusKind, StrategyView, TaskRow, WebhookExecutionStatus,
};
use crate::order::{first_n, key_le, order, order_sorts, pick, SortKey};
use crate::tally::{
    count, ids_where, lemma_count_like, lemma_filter_count, lemma_filter_has, lemma_ids_where_has, sum,
};
use crate::text::like_escaped;
use vstd::prelude::*;

verus! {

/// What is sorted is what was selected, and in order.
proof fn lemma_pick<A>(found: Seq<A>, key: spec_fn(A) -> SortKey)
    ensures
        ({
            let out = pick(found, order(found.map_values(key)));
            &&& out.len() == found.len()
            &&& forall|x: A| #[trigger] out.contains(x) <==> found.contains(x)
            &&& forall|i: int, j: int|
                0 <= i < j < out.len() ==> key_le(key(#[trigger] out[i]), key(#[trigger] out[j]))
        }),
{
    let keys = found.map_values(key);
    let o = order(keys);
    let out = pick(found, o);
    order_sorts(keys);
    assert forall|x: A| #[trigger] out.contains(x) <==> found.contains(x) by {
        if out.contains(x) {
            let i = choose|i: int| 0 <= i < out.len() && out[i] == x;
            assert(found[o[i]] == x);
        }
        if found.contains(x) {
            let k = choose|k: int| 0 <= k < found.len() && found[k] == x;
            assert(o.contains(k));
            let i = choose|i: int| 0 <= i < o.len() && o[i] == k;
            assert(out[i] == x);
        }
    }
    assert forall|i: int, j: int| 0 <= i < j < out.len() implies key_le(
        key(#[trigger] out[i]),
        key(#[trigger] out[j]),
    ) by {
        assert(keys[o[i]] == key(out[i]) && keys[o[j]] == key(out[j]));
    }
}

pub proof fn lemma_sorted_where(
    tasks: Seq<TaskRow>,
    p: spec_fn(TaskRow) -> bool,
    key: spec_fn(TaskRow) -> SortKey,
)
    ensures
        ({
            let out = sorted_where(tasks, p, key);
            &&& out.len() == count(tasks, p)
            &&& forall|x: TaskRow| #[trigger] out.contains(x) <==> tasks.contains(x) && p(x)
            &&& forall|i: int, j: int|
                0 <= i < j < out.len() ==> key_le(key(#[trigger] out[i]), key(#[trigger] out[j]))
        }),
{
    let found = tasks.filter(p);
    lemma_pick(found, key);
    lemma_filter_count(tasks, p, p);
    assert forall|x: TaskRow| #[trigger]
        sorted_where(tasks, p, key).contains(x) <==> tasks.contains(x) && p(x) by {
        lemma_filter_has(tasks, p, x);
    }
}

/// One pending task comes before another: it has the higher priority, or else is the
/// older one, or else has the lower identifier.
pub open spec fn goes_first(a: TaskRow, b: TaskRow) -> bool {
    if a.priority != b.priority {
        a.priority > b.priority
    } else if a.created_at != b.created_at {
        a.created_at < b.created_at
    } else {
        a.id < b.id
    }
}

/// A pending task that a page may hold: it comes after the place where the last one ended.
pub open spec fn is_next(t: TaskRow, cursor: Option<PendingCursor>) -> bool {
    t.status == StatusKind::Pending && (cursor is Some ==> {
        let c = cursor->0;
        if t.priority != c.priority {
            t.priority < c.priority
        } else if t.created_at != c.created_at {
            t.created_at > c.created_at
        } else {
            t.id > c.id
        }
    })
}

/// A page of pending tasks holds the first ones after its cursor, by priority, age and
/// identifier. While there is room it leaves out none, and one that it leaves out does not
/// go before any that it holds.
pub proof fn pending_pages_go_by_priority(
    tasks: Seq<TaskRow>,
    cursor: Option<PendingCursor>,
    n: int,
)
    requires
        n >= 0,
        forall|i: int|
            0 <= i < tasks.len() ==> i32::MIN <= (#[trigger] tasks[i]).priority <= i32::MAX
                && i64::MIN <= tasks[i].created_at <= i64::MAX,
    ensures
        ({
            let out = first_n(
                sorted_where(tasks, pending_after(cursor), |t: TaskRow| pending_key(t)),
                n,
            );
            &&& out.len() <= n
            &&& forall|k: int|
                0 <= k < out.len() ==> tasks.contains(#[trigger] out[k]) && is_next(out[k], cursor)
            &&& forall|k: int, l: int|
                0 <= k < l < out.len() ==> !goes_first(#[trigger] out[l], #[trigger] out[k])
            &&& out.len() < n ==> forall|t: TaskRow| #[trigger]
                tasks.contains(t) && is_next(t, cursor) ==> out.contains(t)
            &&& forall|k: int, t: TaskRow|
                #![trigger out[k], tasks.contains(t)]
                0 <= k < out.len() && tasks.contains(t) && is_next(t, cursor) && !out.contains(t)
                    ==> !goes_first(t, out[k])
        }),
{
    let p = pending_after(cursor);
    let key = |t: TaskRow| pending_key(t);
    let all = sorted_where(tasks, p, key);
    let out = first_n(all, n);
    lemma_sorted_where(tasks, p, key);
    assert forall|t: TaskRow| #[trigger] p(t) == is_next(t, cursor) by {}
    assert(forall|k: int| 0 <= k < out.len() ==> #[trigger] out[k] == all[k]);
    assert forall|k: int| 0 <= k < all.len() implies tasks.contains(#[trigger] all[k]) && is_next(
        all[k],
        cursor,
    ) && i32::MIN <= all[k].priority <= i32::MAX && i64::MIN <= all[k].created_at <= i64::MAX by {
        assert(all.contains(all[k]));
        let i = choose|i: int| 0 <= i < tasks.len() && tasks[i] == all[k];
        assert(tasks[i] == all[k]);
        assert(p(all[k]));
    }
    assert forall|k: int, l: int| 0 <= k < l < all.len() implies !goes_first(
        #[trigger] all[l],
        #[trigger] all[k],
    ) by {
        assert(key_le(key(all[k]), key(all[l])));
        assert(i32::MIN <= all[k].priority <= i32::MAX && i32::MIN <= all[l].priority <= i32::MAX);
        assert(tasks.contains(all[k]) && tasks.contains(all[l]));
    }
    assert forall|t: TaskRow| #[trigger] tasks.contains(t) && is_next(t, cursor) implies exists|
        k: int,
    | 0 <= k < all.len() && #[trigger] all[k] == t by {
        assert(p(t));
        assert(all.contains(t));
    }
    assert forall|t: TaskRow|
        out.len() < n && #[trigger] tasks.contains(t) && is_next(t, cursor) implies out.contains(
        t,
    ) by {
        let k = choose|k: int| 0 <= k < all.len() && #[trigger] all[k] == t;
        assert(out[k] == t);
    }
    assert forall|k: int, t: TaskRow|
        #![trigger out[k], tasks.contains(t)]
        0 <= k < out.len() && tasks.contains(t) && is_next(t, cursor) && !out.contains(
            t,
        ) implies !goes_first(t, out[k]) by {
        let m = choose|m: int| 0 <= m < all.len() && #[trigger] all[m] == t;
        if m < out.len() {
            assert(out[m] == t);
        }
        assert(out[k] == all[k]);
    }
}

/// Pages follow each other: two of them hold what one of their joint size holds, and one
/// that is large enough holds all.
pub proof fn pages_follow_each_other<A>(s: Seq<A>, limit: int, more: int, offset: int)
    requires
        limit >= 0,
        more >= 0,
        offset >= 0,
    ensures
        page(s, limit, offset) + page(s, more, offset + limit) == page(s, limit + more, offset),
        page(s, s.len() as int, 0) == s,
        page(s, limit, offset).len() <= limit,
        forall|k: int|
            0 <= k < page(s, limit, offset).len() ==> page(s, limit, offset)[k] == s[offset + k],
{
    assert(page(s, limit, offset) + page(s, more, offset + limit) =~= page(
        s,
        limit + more,
        offset,
    ));
    assert(page(s, s.len() as int, 0) =~= s);
}

/// A task that has all that a filter asks for.
pub open spec fn has_all(f: Filter, metadata_matches: Seq<u128>, t: TaskRow) -> bool {
    &&& f.name@.len() > 0 ==> f.name@ == like_escaped(t.name)
    &&& f.kind@.len() > 0 ==> f.kind@ == like_escaped(t.kind)
    &&& f.metadata is Some ==> metadata_matches.contains(t.id)
    &&& f.status matches Some(x) ==> t.status == x
    &&& f.batch_id matches Some(x) ==> t.batch_id == Some(x)
    &&& f.timeout matches Some(x) ==> t.timeout == x
}

/// A filtered listing holds the tasks that have all that was asked for, and no others,
/// each once, the newest first. What it says of each is what the task holds.
pub proof fn filters_are_all_met(tasks: Seq<TaskRow>, f: Filter, metadata_matches: Seq<u128>)
    requires
        forall|i: int|
            0 <= i < tasks.len() ==> i64::MIN <= (#[trigger] tasks[i]).created_at <= i64::MAX,
    ensures
        ({
            let all = sorted_where(
                tasks,
                matches_filter(f, metadata_matches),
                |t: TaskRow| newest_key(t),
            );
            &&& all.len() == count(tasks, |t: TaskRow| has_all(f, metadata_matches, t))
            &&& forall|t: TaskRow| #[trigger]
                all.contains(t) <==> tasks.contains(t) && has_all(f, metadata_matches, t)
            &&& forall|k: int, l: int|
                0 <= k < l < all.len() ==> (#[trigger] all[k]).created_at >= (
                #[trigger] all[l]).created_at
            &&& summaries_of(all).len() == all.len()
            &&& forall|k: int|
                0 <= k < all.len() ==> #[trigger] summaries_of(all)[k] == (BasicRow {
                    id: all[k].id,
                    name: all[k].name,
                    kind: all[k].kind,
                    status: all[k].status,
                    timeout: all[k].timeout,
                    created_at: all[k].created_at,
                    started_at: all[k].started_at,
                    ended_at: all[k].ended_at,
                    success: all[k].success,
                    failures: all[k].failures,
                    failure_reason: all[k].failure_reason,
                    expected_count: all[k].expected_count,
                    batch_id: all[k].batch_id,
                    priority: all[k].priority,
                })
        }),
{
    let p = matches_filter(f, metadata_matches);
    let q = |t: TaskRow| has_all(f, metadata_matches, t);
    let key = |t: TaskRow| newest_key(t);
    let all = sorted_where(tasks, p, key);
    lemma_sorted_where(tasks, p, key);
    assert forall|t: TaskRow| #[trigger] p(t) == q(t) by {}
    lemma_filter_count(tasks, p, q);
    lemma_filter_count(tasks, p, p);
    assert forall|k: int, l: int| 0 <= k < l < all.len() implies (
    #[trigger] all[k]).created_at >= (#[trigger] all[l]).created_at by {
        assert(key_le(key(all[k]), key(all[l])));
        assert(all.contains(all[k]) && all.contains(all[l]));
        let a = choose|a: int| 0 <= a < tasks.len() && tasks[a] == all[k];
        let b = choose|b: int| 0 <= b < tasks.len() && tasks[b] == all[l];
        assert(tasks[a] == all[k] && tasks[b] == all[l]);
    }
}

/// The graph of a batch has the batch's tasks, the oldest first, and the links both ends
/// of which are among them.
pub proof fn graphs_hold_their_batch(
    tasks: Seq<TaskRow>,
    links: Seq<Link>,
    batch: u128,
    l: Link,
)
    requires
        forall|i: int|
            0 <= i < tasks.len() ==> i64::MIN <= (#[trigger] tasks[i]).created_at <= i64::MAX,
    ensures
        ({
            let all = sorted_where(tasks, in_batch(batch), |t: TaskRow| oldest_key(t));
            &&& forall|t: TaskRow| #[trigger]
                all.contains(t) <==> tasks.contains(t) && t.batch_id == Some(batch)
            &&& all.len() == count(tasks, |t: TaskRow| t.batch_id == Some(batch))
            &&& forall|k: int, m: int|
                0 <= k < m < all.len() ==> (#[trigger] all[k]).created_at <= (
                #[trigger] all[m]).created_at
        }),
        links.filter(joins(ids_where(tasks, in_batch(batch)))).contains(l) <==> {
            &&& links.contains(l)
            &&& exists|i: int|
                0 <= i < tasks.len() && #[trigger] tasks[i].id == l.parent_id && tasks[i].batch_id
                    == Some(batch)
            &&& exists|i: int|
                0 <= i < tasks.len() && #[trigger] tasks[i].id == l.child_id && tasks[i].batch_id
                    == Some(batch)
        },
{
    let p = in_batch(batch);
    let q = |t: TaskRow| t.batch_id == Some(batch);
    let key = |t: TaskRow| oldest_key(t);
    let all = sorted_where(tasks, p, key);
    lemma_sorted_where(tasks, p, key);
    lemma_filter_count(tasks, p, q);
    lemma_filter_count(tasks, p, p);
    assert forall|k: int, m: int| 0 <= k < m < all.len() implies (
    #[trigger] all[k]).created_at <= (#[trigger] all[m]).created_at by {
        assert(key_le(key(all[k]), key(all[m])));
        assert(all.contains(all[k]) && all.contains(all[m]));
        let a = choose|a: int| 0 <= a < tasks.len() && tasks[a] == all[k];
        let b = choose|b: int| 0 <= b < tasks.len() && tasks[b] == all[m];
        assert(tasks[a] == all[k] && tasks[b] == all[m]);
    }
    let ids = ids_where(tasks, p);
    lemma_filter_has(links, joins(ids), l);
    lemma_ids_where_has(tasks, p, l.parent_id);
    lemma_ids_where_has(tasks, p, l.child_id);
    if ids.contains(l.parent_id) {
        let i = choose|i: int|
            0 <= i < tasks.len() && #[trigger] tasks[i].id == l.parent_id && p(tasks[i]);
        assert(tasks[i].id == l.parent_id);
    }
    if ids.contains(l.child_id) {
        let i = choose|i: int|
            0 <= i < tasks.len() && #[trigger] tasks[i].id == l.child_id && p(tasks[i]);
        assert(tasks[i].id == l.child_id);
    }
}

proof fn lemma_statuses_add_up(tasks: Seq<TaskRow>, batch: u128)
    ensures
        count(tasks, batch_tasks(batch)) == count(
            tasks,
            batch_tasks_in(batch, StatusKind::Waiting),
        ) + count(tasks, batch_tasks_in(batch, StatusKind::Pending)) + count(
            tasks,
            batch_tasks_in(batch, StatusKind::Claimed),
        ) + count(tasks, batch_tasks_in(batch, StatusKind::Running)) + count(
            tasks,
            batch_tasks_in(batch, StatusKind::Paused),
        ) + count(tasks, batch_tasks_in(batch, StatusKind::Success)) + count(
            tasks,
            batch_tasks_in(batch, StatusKind::Failure),
        ) + count(tasks, batch_tasks_in(batch, StatusKind::Canceled)),
    decreases tasks.len(),
{
    if tasks.len() > 0 {
        lemma_statuses_add_up(tasks.drop_last(), batch);
    }
}

/// The number of a batch's tasks in a status.
pub open spec fn number_in(tasks: Seq<TaskRow>, batch: u128, status: StatusKind) -> nat {
    count(tasks, |t: TaskRow| t.batch_id == Some(batch) && t.status == status)
}

/// The numbers of a batch's tasks per status are what they say and add up to all of them;
/// its progress is the sum of theirs.
pub proof fn batch_numbers_add_up(tasks: Seq<TaskRow>, batch: u128, b: BatchStats)
    requires
        stats_of(tasks, batch, b),
    ensures
        b.total == b.waiting + b.pending + b.claimed + b.running + b.paused + b.success + b.failure
            + b.canceled,
        b.waiting == number_in(tasks, batch, StatusKind::Waiting),
        b.pending == number_in(tasks, batch, StatusKind::Pending),
        b.claimed == number_in(tasks, batch, StatusKind::Claimed),
        b.running == number_in(tasks, batch, StatusKind::Running),
        b.paused == number_in(tasks, batch, StatusKind::Paused),
        b.success == number_in(tasks, batch, StatusKind::Success),
        b.failure == number_in(tasks, batch, StatusKind::Failure),
        b.canceled == number_in(tasks, batch, StatusKind::Canceled),
        b.total_success == sum(
            tasks.filter(|t: TaskRow| t.batch_id == Some(batch)),
            |t: TaskRow| t.success,
        ),
        b.total_failures == sum(
            tasks.filter(|t: TaskRow| t.batch_id == Some(batch)),
            |t: TaskRow| t.failures,
        ),
        b.total_expected == sum(
            tasks.filter(|t: TaskRow| t.batch_id == Some(batch)),
            |t: TaskRow|
                match t.expected_count {
                    Some(e) => e,
                    None => 0,
                },
        ),
{
    lemma_statuses_add_up(tasks, batch);
    lemma_number_in(tasks, batch, StatusKind::Waiting);
    lemma_number_in(tasks, batch, StatusKind::Pending);
    lemma_number_in(tasks, batch, StatusKind::Claimed);
    lemma_number_in(tasks, batch, StatusKind::Running);
    lemma_number_in(tasks, batch, StatusKind::Paused);
    lemma_number_in(tasks, batch, StatusKind::Success);
    lemma_number_in(tasks, batch, StatusKind::Failure);
    lemma_number_in(tasks, batch, StatusKind::Canceled);
    let p = |t: TaskRow| t.batch_id == Some(batch);
    lemma_sum_filter(tasks, p, |t: TaskRow| t.success, crate::db::batch_listing::successes_in(batch));
    lemma_sum_filter(
        tasks,
        p,
        |t: TaskRow| t.failures,
        crate::db::batch_listing::failures_in(batch),
    );
    lemma_sum_filter(
        tasks,
        p,
        |t: TaskRow|
            match t.expected_count {
                Some(e) => e,
                None => 0,
            },
        crate::db::batch_listing::expected_in(batch),
    );
}

proof fn lemma_number_in(tasks: Seq<TaskRow>, batch: u128, status: StatusKind)
    ensures
        count(tasks, batch_tasks_in(batch, status)) == number_in(tasks, batch, status),
{
    lemma_count_like(
        tasks,
        batch_tasks_in(batch, status),
        |t: TaskRow| t.batch_id == Some(batch) && t.status == status,
    );
}

proof fn lemma_sum_filter(
    s: Seq<TaskRow>,
    p: spec_fn(TaskRow) -> bool,
    f: spec_fn(TaskRow) -> int,
    g: spec_fn(TaskRow) -> int,
)
    requires
        forall|t: TaskRow|
            #[trigger] g(t) == if p(t) {
                f(t)
            } else {
                0
            },
    ensures
        sum(s.filter(p), f) == sum(s, g),
    decreases s.len(),
{
    reveal(Seq::filter);
    if s.len() > 0 {
        lemma_sum_filter(s.drop_last(), p, f, g);
        let before = s.drop_last().filter(p);
        if p(s.last()) {
            assert(s.filter(p) =~= before.push(s.last()));
            assert(s.filter(p).drop_last() =~= before);
        } else {
            assert(s.filter(p) =~= before);
        }
        assert(g(s.last()) == if p(s.last()) {
            f(s.last())
        } else {
            0
        });
    }
}

/// New rules are given to the tasks of the batch and the kind that no worker has taken
/// and that have not ended. Others keep theirs, and nothing else changes.
pub proof fn new_rules_reach_those_that_wait(
    batch: u128,
    kind: Seq<char>,
    rules: Seq<StrategyView>,
    t: TaskRow,
)
    ensures
        ruled_row(batch, kind, rules)(t) == if t.batch_id == Some(batch) && t.kind == kind && !(
        t.status == StatusKind::Claimed || t.status == StatusKind::Running || t.status
            == StatusKind::Success || t.status == StatusKind::Failure || t.status
            == StatusKind::Canceled) {
            TaskRow { rules, ..t }
        } else {
            t
        },
        unstarted(batch, kind)(t) <==> t.batch_id == Some(batch) && t.kind == kind && !(t.status
            == StatusKind::Claimed || t.status == StatusKind::Running || t.status
            == StatusKind::Success || t.status == StatusKind::Failure || t.status
            == StatusKind::Canceled),
{
}

/// A delivery that shows a queued row as it is, pending.
pub open spec fn shows(d: LedgerRow, r: OutboxRow) -> bool {
    &&& d.status == WebhookExecutionStatus::Pending
    &&& d.id == r.id && d.key == r.key
    &&& d.task_id == r.task_id && d.batch_id == r.batch_id
    &&& d.trigger == r.trigger && d.condition == r.condition
    &&& d.attempts == r.attempts && d.last_error == r.last_error
    &&& d.created_at == r.created_at && d.updated_at == r.updated_at
    &&& d.next_attempt_at == r.next_attempt_at
}

/// A listing that shows a queued row.
pub open spec fn listed(out: Seq<LedgerRow>, r: OutboxRow) -> bool {
    exists|k: int| 0 <= k < out.len() && shows(#[trigger] out[k], r)
}

/// A listing of deliveries holds every record of the status that was asked for and, where
/// that is pending or left open, every queued row; the last changed first.
pub proof fn deliveries_are_listed_by_status(
    outbox: Seq<OutboxRow>,
    ledger: Seq<LedgerRow>,
    status: Option<WebhookExecutionStatus>,
)
    requires
        forall|i: int|
            0 <= i < outbox.len() ==> i64::MIN <= (#[trigger] outbox[i]).updated_at <= i64::MAX,
        forall|i: int|
            0 <= i < ledger.len() ==> i64::MIN <= (#[trigger] ledger[i]).updated_at <= i64::MAX,
    ensures
        ({
            let all = deliveries(outbox, ledger, status);
            let out = pick(all, order(all.map_values(|r: LedgerRow| recency_key(r))));
            &&& out.len() == count(
                ledger,
                |r: LedgerRow| status is None || r.status == status->0,
            ) + if status is None || status->0 == WebhookExecutionStatus::Pending {
                outbox.len()
            } else {
                0
            }
            &&& forall|k: int|
                0 <= k < out.len() ==> (status is None || (#[trigger] out[k]).status == status->0)
            &&& forall|r: LedgerRow| #[trigger]
                ledger.contains(r) && (status is None || r.status == status->0) ==> out.contains(r)
            &&& status is None || status->0 == WebhookExecutionStatus::Pending ==> forall|i: int|
                0 <= i < outbox.len() ==> listed(out, #[trigger] outbox[i])
            &&& forall|k: int, l: int|
                0 <= k < l < out.len() ==> (#[trigger] out[k]).updated_at >= (
                #[trigger] out[l]).updated_at
        }),
{
    let key = |r: LedgerRow| recency_key(r);
    let all = deliveries(outbox, ledger, status);
    let out = pick(all, order(all.map_values(key)));
    lemma_pick(all, key);
    let p = |r: LedgerRow| status is None || status == Some(r.status);
    let q = |r: LedgerRow| status is None || r.status == status->0;
    let sel = ledger.filter(p);
    lemma_filter_count(ledger, p, q);
    let with_queue = status is None || status->0 == WebhookExecutionStatus::Pending;
    let shown = outbox.map_values(|r: OutboxRow| crate::db::webhook_outbox::as_pending(r));
    assert(all == if with_queue {
        sel + shown
    } else {
        sel
    });
    assert forall|x: LedgerRow| #[trigger] all.contains(x) implies i64::MIN <= x.updated_at
        <= i64::MAX && (status is None || x.status == status->0) by {
        let k = choose|k: int| 0 <= k < all.len() && all[k] == x;
        if k < sel.len() {
            assert(sel[k] == x);
            assert(sel.contains(x));
            lemma_filter_has(ledger, p, x);
            let i = choose|i: int| 0 <= i < ledger.len() && ledger[i] == x;
            assert(ledger[i] == x);
        } else {
            assert(shown[k - sel.len()] == x);
            assert(outbox[k - sel.len()].updated_at == x.updated_at);
        }
    }
    assert forall|k: int| 0 <= k < out.len() implies (status is None || (
    #[trigger] out[k]).status == status->0) by {
        assert(out.contains(out[k]));
        assert(all.contains(out[k]));
    }
    assert forall|r: LedgerRow| #[trigger]
        ledger.contains(r) && (status is None || r.status == status->0) implies out.contains(r) by {
        lemma_filter_has(ledger, p, r);
        let k = choose|k: int| 0 <= k < sel.len() && sel[k] == r;
        assert(all[k] == r);
        assert(all.contains(r));
    }
    assert forall|i: int| with_queue && 0 <= i < outbox.len() implies listed(
        out,
        #[trigger] outbox[i],
    ) by {
        let x = shown[i];
        assert(all[sel.len() + i] == x);
        assert(all.contains(x));
        assert(out.contains(x));
        let k = choose|k: int| 0 <= k < out.len() && out[k] == x;
        assert(shows(out[k], outbox[i]));
    }
    assert forall|k: int, l: int| 0 <= k < l < out.len() implies (
    #[trigger] out[k]).updated_at >= (#[trigger] out[l]).updated_at by {
        assert(key_le(key(out[k]), key(out[l])));
        assert(out.contains(out[k]) && out.contains(out[l]));
        assert(all.contains(out[k]) && all.contains(out[l]));
    }
}

/// A request gets the page size that it asks for, but no more than the maximum, and the
/// usual one where it asks for none. It gets the page that it asks for, where there can be
/// one.
pub proof fn requests_get_the_page_they_ask_for(
    page: Option<i64>,
    page_size: Option<i64>,
    default: int,
    max: int,
)
    requires
        0 < default <= max <= i64::MAX,
    ensures
        ({
            let size = effective_size(page_size, default, max);
            let number = effective_page(page, size);
            &&& page_size is None ==> size == default
            &&& page_size matches Some(s) ==> size == if s <= 0 {
                default
            } else if s > max {
                max
            } else {
                s as int
            }
            &&& page is None ==> number == 0
            &&& page matches Some(p) ==> if p <= 0 {
                number == 0
            } else if p <= i64::MAX as int / size {
                number == p
            } else {
                number == i64::MAX as int / size
            }
        }),
{
}

/// Every status of a delivery can be asked for by its name, and by no other.
pub proof fn statuses_are_named(s: Seq<char>)
    ensures
        status_named(s) == Some(WebhookExecutionStatus::Pending) <==> s == "pending"@,
        status_named(s) == Some(WebhookExecutionStatus::Success) <==> s == "success"@,
        status_named(s) == Some(WebhookExecutionStatus::Failure) <==> s == "failure"@,
        status_named(s) == Some(WebhookExecutionStatus::Exhausted) <==> s == "exhausted"@,
{
    reveal_strlit("pending");
    reveal_strlit("success");
    reveal_strlit("failure");
    reveal_strlit("exhausted");
    assert("pending"@[0] == 'p' && "success"@[0] == 's' && "failure"@[0] == 'f'
        && "exhausted"@[0] == 'e');
}

/// A filter asks for what the request asked for, literally, and for nothing else.
pub proof fn filters_hold_what_was_asked(dto: FilterDto, metadata: Option<Seq<char>>, f: Filter)
    requires
        filter_of(dto, metadata, f),
    ensures
        dto.name matches Some(n) ==> f.name@ == like_escaped(n@),
        dto.name is None ==> f.name@.len() == 0,
        dto.kind matches Some(n) ==> f.kind@ == like_escaped(n@),
        dto.kind is None ==> f.kind@.len() == 0,
        f.status == dto.status,
        f.timeout == dto.timeout,
        f.batch_id == dto.batch_id,
        metadata is None <==> f.metadata is None,
        metadata matches Some(m) ==> f.metadata->0@ == m,
{
}

/// The actions shown with a task are those of the task.
pub proof fn tasks_are_shown_with_their_actions(actions: Seq<Action>, id: u128, a: Action)
    ensures
        actions.filter(actions_of(id)).contains(a) <==> actions.contains(a) && a.task_id == id,
{
    lemma_filter_has(actions, actions_of(id), a);
}

} // verus!
