//! Retention: archiving old tasks, sweeping empty batches and slots.

use crate::db::task_query::sorted_where;
use crate::models::{
    archive_rows, ledger_rows, outbox_rows, rows, slot_rows, Action, ArchiveRow, Batch, LedgerRow,
    Link, OutboxRow, RuleSlot, SlotRow, Task, TaskArchive, TaskRow, WebhookExecution,
    WebhookOutbox,
};
use crate::order::{first_n, order, pick, sort_positions, SortKey};
use crate::store::{Store, Tables};
use crate::tally::{has_id, lemma_filter_take};
use vstd::prelude::*;

verus! {

/// Microseconds per day.
pub const DAY_MICROS: i128 = 86_400_000_000;

/// The instant `days` before `now`.
pub open spec fn cutoff(now: int, days: int) -> int {
    now - days * 86_400_000_000
}

// ---------------------------------------------------------------------------
// Which tasks go
// ---------------------------------------------------------------------------

/// A delivery of the task is queued.
pub open spec fn queued_for_task(outbox: Seq<OutboxRow>, task: u128) -> bool {
    exists|i: int| 0 <= i < outbox.len() && (#[trigger] outbox[i]).task_id == Some(task)
}

/// A delivery of the batch is queued.
pub open spec fn queued_for_batch(outbox: Seq<OutboxRow>, batch: u128) -> bool {
    exists|i: int| 0 <= i < outbox.len() && (#[trigger] outbox[i]).batch_id == Some(batch)
}

/// The batch has actions to execute when it completes, and has not completed.
pub open spec fn awaited(batches: Seq<Batch>, batch: u128) -> bool {
    exists|i: int|
        0 <= i < batches.len() && (#[trigger] batches[i]).id == batch
            && batches[i].on_complete.nonempty_array() && batches[i].remaining > 0
}

/// A task that may be archived: it ended by `cut`, no delivery of it or of its
/// batch is queued, and its batch does not still await its completion.
pub open spec fn archivable(s: Tables, cut: int) -> spec_fn(TaskRow) -> bool {
    |t: TaskRow|
        {
            &&& t.status.terminal()
            &&& t.ended_at is Some
            &&& t.ended_at->0 <= cut
            &&& !queued_for_task(s.outbox, t.id)
            &&& t.batch_id is Some ==> !queued_for_batch(s.outbox, t.batch_id->0)
            &&& t.batch_id is Some ==> !awaited(s.batches, t.batch_id->0)
        }
}

/// The order in which tasks are archived.
pub open spec fn ended_key(t: TaskRow) -> SortKey {
    (
        match t.ended_at {
            Some(e) => e as i128,
            None => 0i128,
        },
        0i128,
        t.id,
    )
}

/// The tasks to archive: the first `n` that may be, in order of their end.
pub open spec fn to_archive(s: Tables, cut: int, n: int) -> Seq<u128> {
    first_n(
        sorted_where(s.tasks, archivable(s, cut), |t: TaskRow| ended_key(t)).map_values(
            |t: TaskRow| t.id,
        ),
        n,
    )
}

// ---------------------------------------------------------------------------
// What goes with them
// ---------------------------------------------------------------------------

/// `o` is one of `ids`.
pub open spec fn one_of(o: Option<u128>, ids: Seq<u128>) -> bool {
    match o {
        Some(x) => ids.contains(x),
        None => false,
    }
}

/// The deliveries that stay when those of the tasks `ids`, or of the batches
/// `ids`, are deleted.
pub open spec fn other_delivery(ids: Seq<u128>, of_tasks: bool) -> spec_fn(OutboxRow) -> bool {
    |r: OutboxRow|
        !one_of(
            if of_tasks {
                r.task_id
            } else {
                r.batch_id
            },
            ids,
        )
}

/// The ledger rows that stay when those of the tasks `ids`, or of the batches
/// `ids`, are deleted.
pub open spec fn other_record(ids: Seq<u128>, of_tasks: bool) -> spec_fn(LedgerRow) -> bool {
    |r: LedgerRow|
        !one_of(
            if of_tasks {
                r.task_id
            } else {
                r.batch_id
            },
            ids,
        )
}

/// The actions that are not of the tasks `ids`.
pub open spec fn other_action(ids: Seq<u128>) -> spec_fn(Action) -> bool {
    |a: Action| !ids.contains(a.task_id)
}

/// The links that neither leave nor reach one of the tasks `ids`.
pub open spec fn other_link(ids: Seq<u128>) -> spec_fn(Link) -> bool {
    |l: Link| !ids.contains(l.parent_id) && !ids.contains(l.child_id)
}

/// The tasks `ids`.
pub open spec fn among(ids: Seq<u128>) -> spec_fn(TaskRow) -> bool {
    |t: TaskRow| ids.contains(t.id)
}

/// The tasks other than `ids`.
pub open spec fn other_task(ids: Seq<u128>) -> spec_fn(TaskRow) -> bool {
    |t: TaskRow| !ids.contains(t.id)
}

/// The batches other than `ids`.
pub open spec fn other_batch(ids: Seq<u128>) -> spec_fn(Batch) -> bool {
    |b: Batch| !ids.contains(b.id)
}

/// A task as the archive keeps it.
pub open spec fn to_archive_row(now: int) -> spec_fn(TaskRow) -> ArchiveRow {
    |t: TaskRow| ArchiveRow { task: t, archived_at: now }
}

/// The tables once the tasks `ids` are archived: their actions, deliveries,
/// ledger rows and links are deleted, and the tasks move to the archive.
pub open spec fn archived(s: Tables, ids: Seq<u128>, now: int) -> Tables {
    Tables {
        actions: s.actions.filter(other_action(ids)),
        outbox: s.outbox.filter(other_delivery(ids, true)),
        ledger: s.ledger.filter(other_record(ids, true)),
        links: s.links.filter(other_link(ids)),
        tasks: s.tasks.filter(other_task(ids)),
        archive: s.archive + s.tasks.filter(among(ids)).map_values(to_archive_row(now)),
        ..s
    }
}

/// A batch without tasks and without a queued delivery. One whose signal is
/// still queued stays: sweeping it would lose the signal.
pub open spec fn orphan(s: Tables) -> spec_fn(Batch) -> bool {
    |b: Batch|
        {
            &&& forall|i: int|
                0 <= i < s.tasks.len() ==> (#[trigger] s.tasks[i]).batch_id != Some(b.id)
            &&& !queued_for_batch(s.outbox, b.id)
        }
}

/// The identifiers of the first `n` orphaned batches.
pub open spec fn orphans(s: Tables, n: int) -> Seq<u128> {
    first_n(s.batches.filter(orphan(s)).map_values(|b: Batch| b.id), n)
}

/// The tables without the batches `ids` and their deliveries and ledger rows.
pub open spec fn swept(s: Tables, ids: Seq<u128>) -> Tables {
    Tables {
        outbox: s.outbox.filter(other_delivery(ids, false)),
        ledger: s.ledger.filter(other_record(ids, false)),
        batches: s.batches.filter(other_batch(ids)),
        ..s
    }
}

/// The tables after a cleanup.
pub open spec fn cleaned(s: Tables, cut: int, n: int, now: int) -> Tables {
    let ids = to_archive(s, cut, n);
    if ids.len() == 0 {
        s
    } else {
        let t = archived(s, ids, now);
        swept(t, orphans(t, n))
    }
}

// ---------------------------------------------------------------------------
// Deciding
// ---------------------------------------------------------------------------

fn is_queued_for_task(outbox: &Vec<WebhookOutbox>, task: u128) -> (r: bool)
    ensures
        r == queued_for_task(outbox_rows(outbox@), task),
{
    let mut i: usize = 0;
    while i < outbox.len()
        invariant
            i <= outbox.len(),
            forall|k: int| 0 <= k < i ==> (#[trigger] outbox_rows(outbox@)[k]).task_id != Some(task),
        decreases outbox.len() - i,
    {
        assert(outbox_rows(outbox@)[i as int] == outbox@[i as int]@);
        if let Some(x) = outbox[i].task_id {
            if x == task {
                return true;
            }
        }
        i += 1;
    }
    false
}

fn is_queued_for_batch(outbox: &Vec<WebhookOutbox>, batch: u128) -> (r: bool)
    ensures
        r == queued_for_batch(outbox_rows(outbox@), batch),
{
    let mut i: usize = 0;
    while i < outbox.len()
        invariant
            i <= outbox.len(),
            forall|k: int|
                0 <= k < i ==> (#[trigger] outbox_rows(outbox@)[k]).batch_id != Some(batch),
        decreases outbox.len() - i,
    {
        assert(outbox_rows(outbox@)[i as int] == outbox@[i as int]@);
        if let Some(x) = outbox[i].batch_id {
            if x == batch {
                return true;
            }
        }
        i += 1;
    }
    false
}

fn is_awaited(batches: &Vec<Batch>, batch: u128) -> (r: bool)
    ensures
        r == awaited(batches@, batch),
{
    let mut i: usize = 0;
    while i < batches.len()
        invariant
            i <= batches.len(),
            forall|k: int|
                0 <= k < i ==> !((#[trigger] batches@[k]).id == batch
                    && batches@[k].on_complete.nonempty_array() && batches@[k].remaining > 0),
        decreases batches.len() - i,
    {
        if batches[i].id == batch && batches[i].on_complete.is_nonempty_array()
            && batches[i].remaining > 0 {
            return true;
        }
        i += 1;
    }
    false
}

fn is_archivable(store: &Store, t: &Task, cut: i128) -> (r: bool)
    ensures
        r == archivable(store@, cut as int)(t@),
{
    let ended: i64 = match t.ended_at {
        Some(e) => e,
        None => {
            return false;
        },
    };
    if !t.status.is_terminal() || ended as i128 > cut || is_queued_for_task(
        &store.outbox,
        t.id,
    ) {
        return false;
    }
    match t.batch_id {
        Some(b) => !is_queued_for_batch(&store.outbox, b) && !is_awaited(&store.batches, b),
        None => true,
    }
}

/// The tasks to archive.
fn find_archivable(store: &Store, cut: i128, batch_size: i64) -> (r: Vec<u128>)
    requires
        batch_size >= 0,
    ensures
        r@ == to_archive(store@, cut as int, batch_size as int),
{
    let ghost rs = store@.tasks;
    let ghost p = archivable(store@, cut as int);
    let ghost kf = |t: TaskRow| ended_key(t);
    let mut found: Vec<usize> = Vec::new();
    let mut keys: Vec<SortKey> = Vec::new();
    let mut i: usize = 0;
    proof {
        reveal(Seq::filter);
        assert(rs.take(0).filter(p) =~= Seq::empty());
    }
    while i < store.tasks.len()
        invariant
            i <= store.tasks.len(),
            rs == store@.tasks,
            p == archivable(store@, cut as int),
            kf == (|t: TaskRow| ended_key(t)),
            found@.len() == rs.take(i as int).filter(p).len(),
            keys@.len() == found@.len(),
            forall|k: int|
                0 <= k < found@.len() ==> #[trigger] found@[k] < i && rs[found@[k] as int]
                    == rs.take(i as int).filter(p)[k] && keys@[k] == kf(rs[found@[k] as int]),
        decreases store.tasks.len() - i,
    {
        proof {
            lemma_filter_take(rs, p, i as int);
            assert(rs[i as int] == store.tasks@[i as int]@);
        }
        let t: &Task = &store.tasks[i];
        if is_archivable(store, t, cut) {
            let ended: i128 = match t.ended_at {
                Some(e) => e as i128,
                None => 0i128,
            };
            found.push(i);
            keys.push((ended, 0i128, t.id));
        }
        i += 1;
    }
    let ghost sel = rs.filter(p);
    proof {
        assert(rs.take(i as int) =~= rs);
        assert forall|k: int| 0 <= k < keys@.len() implies keys@[k] == sel.map_values(kf)[k] by {
            assert(rs[found@[k] as int] == sel[k]);
        }
        assert(keys@ =~= sel.map_values(kf));
    }
    let at: Vec<usize> = sort_positions(&keys);
    let ghost up = |k: usize| k as int;
    let ghost all = pick(sel, order(keys@)).map_values(|t: TaskRow| t.id);
    let mut r: Vec<u128> = Vec::new();
    let mut j: usize = 0;
    assert(at@.map_values(up).len() == at@.len());
    while j < at.len() && (j as u128) < (batch_size as u128)
        invariant
            j <= at.len(),
            j <= batch_size,
            batch_size >= 0,
            up == (|k: usize| k as int),
            at@.map_values(up) == order(keys@),
            at@.len() == keys@.len(),
            found@.len() == keys@.len(),
            sel.len() == keys@.len(),
            all == pick(sel, order(keys@)).map_values(|t: TaskRow| t.id),
            all.len() == at@.len(),
            rs == rows(store.tasks@),
            forall|k: int| 0 <= k < at@.len() ==> #[trigger] at@[k] < keys@.len(),
            forall|k: int|
                0 <= k < found@.len() ==> #[trigger] found@[k] < rs.len() && rs[found@[k] as int]
                    == sel[k],
            r@ =~= all.take(j as int),
        decreases at.len() - j,
    {
        proof {
            assert(order(keys@)[j as int] == at@.map_values(up)[j as int]);
            assert(rs[found@[at@[j as int] as int] as int] == sel[at@[j as int] as int]);
            assert(all.take(j + 1) =~= all.take(j as int).push(all[j as int]));
        }
        r.push(store.tasks[found[at[j]]].id);
        j += 1;
    }
    assert(r@ =~= first_n(all, batch_size as int));
    r
}

// ---------------------------------------------------------------------------
// Deleting
// ---------------------------------------------------------------------------

fn one_of_ids(o: Option<u128>, ids: &Vec<u128>) -> (r: bool)
    ensures
        r == one_of(o, ids@),
{
    match o {
        Some(x) => has_id(ids, x),
        None => false,
    }
}

fn delete_actions(actions: &mut Vec<Action>, ids: &Vec<u128>)
    ensures
        final(actions)@ == old(actions)@.filter(other_action(ids@)),
{
    let ghost all = actions@;
    let ghost p = other_action(ids@);
    let mut rest: Vec<Action> = Vec::new();
    std::mem::swap(&mut rest, actions);
    let ghost mut n: int = 0;
    proof {
        reveal(Seq::filter);
        assert(all.take(0).filter(p) =~= Seq::empty());
    }
    for a in it: rest
        invariant
            it.seq() == all,
            n == it.index(),
            p == other_action(ids@),
            actions@ == all.take(n).filter(p),
    {
        proof {
            lemma_filter_take(all, p, n);
        }
        if !has_id(ids, a.task_id) {
            actions.push(a);
        }
        proof {
            n = n + 1;
        }
    }
    assert(all.take(n) =~= all);
}

fn delete_links(links: &mut Vec<Link>, ids: &Vec<u128>)
    ensures
        final(links)@ == old(links)@.filter(other_link(ids@)),
{
    let ghost all = links@;
    let ghost p = other_link(ids@);
    let mut rest: Vec<Link> = Vec::new();
    std::mem::swap(&mut rest, links);
    let ghost mut n: int = 0;
    proof {
        reveal(Seq::filter);
        assert(all.take(0).filter(p) =~= Seq::empty());
    }
    for l in it: rest
        invariant
            it.seq() == all,
            n == it.index(),
            p == other_link(ids@),
            links@ == all.take(n).filter(p),
    {
        proof {
            lemma_filter_take(all, p, n);
        }
        if !has_id(ids, l.parent_id) && !has_id(ids, l.child_id) {
            links.push(l);
        }
        proof {
            n = n + 1;
        }
    }
    assert(all.take(n) =~= all);
}

/// Deletes the deliveries of tasks or of batches.
fn delete_outbox(outbox: &mut Vec<WebhookOutbox>, ids: &Vec<u128>, of_tasks: bool)
    ensures
        outbox_rows(final(outbox)@) == outbox_rows(old(outbox)@).filter(other_delivery(ids@, of_tasks)),
{
    let ghost all = outbox@;
    let ghost rs = outbox_rows(all);
    let ghost p = other_delivery(ids@, of_tasks);
    let mut rest: Vec<WebhookOutbox> = Vec::new();
    std::mem::swap(&mut rest, outbox);
    let ghost mut n: int = 0;
    proof {
        reveal(Seq::filter);
        assert(rs.take(0).filter(p) =~= outbox_rows(outbox@));
    }
    for r in it: rest
        invariant
            it.seq() == all,
            n == it.index(),
            rs == outbox_rows(all),
            p == other_delivery(ids@, of_tasks),
            outbox_rows(outbox@) == rs.take(n).filter(p),
    {
        proof {
            lemma_filter_take(rs, p, n);
            assert(rs[n] == r@);
        }
        let owner: Option<u128> = if of_tasks {
            r.task_id
        } else {
            r.batch_id
        };
        if !one_of_ids(owner, ids) {
            assert(outbox_rows(outbox@.push(r)) =~= outbox_rows(outbox@).push(r@));
            outbox.push(r);
        }
        proof {
            n = n + 1;
        }
    }
    assert(rs.take(n) =~= rs);
}

/// Deletes the ledger rows of tasks or of batches.
fn delete_ledger(ledger: &mut Vec<WebhookExecution>, ids: &Vec<u128>, of_tasks: bool)
    ensures
        ledger_rows(final(ledger)@) == ledger_rows(old(ledger)@).filter(other_record(ids@, of_tasks)),
{
    let ghost all = ledger@;
    let ghost rs = ledger_rows(all);
    let ghost p = other_record(ids@, of_tasks);
    let mut rest: Vec<WebhookExecution> = Vec::new();
    std::mem::swap(&mut rest, ledger);
    let ghost mut n: int = 0;
    proof {
        reveal(Seq::filter);
        assert(rs.take(0).filter(p) =~= ledger_rows(ledger@));
    }
    for r in it: rest
        invariant
            it.seq() == all,
            n == it.index(),
            rs == ledger_rows(all),
            p == other_record(ids@, of_tasks),
            ledger_rows(ledger@) == rs.take(n).filter(p),
    {
        proof {
            lemma_filter_take(rs, p, n);
            assert(rs[n] == r@);
        }
        let owner: Option<u128> = if of_tasks {
            r.task_id
        } else {
            r.batch_id
        };
        if !one_of_ids(owner, ids) {
            assert(ledger_rows(ledger@.push(r)) =~= ledger_rows(ledger@).push(r@));
            ledger.push(r);
        }
        proof {
            n = n + 1;
        }
    }
    assert(rs.take(n) =~= rs);
}

/// Moves tasks to the archive.
fn move_to_archive(
    tasks: &mut Vec<Task>,
    archive: &mut Vec<TaskArchive>,
    ids: &Vec<u128>,
    now: i64,
)
    ensures
        rows(final(tasks)@) == rows(old(tasks)@).filter(other_task(ids@)),
        archive_rows(final(archive)@) == archive_rows(old(archive)@) + rows(
            old(tasks)@,
        ).filter(among(ids@)).map_values(to_archive_row(now as int)),
{
    let ghost all = tasks@;
    let ghost rs = rows(all);
    let ghost first = archive_rows(archive@);
    let ghost stays = other_task(ids@);
    let ghost goes = among(ids@);
    let ghost f = to_archive_row(now as int);
    let mut rest: Vec<Task> = Vec::new();
    std::mem::swap(&mut rest, tasks);
    let ghost mut n: int = 0;
    proof {
        reveal(Seq::filter);
        assert(rs.take(0).filter(stays) =~= rows(tasks@));
        assert(first + rs.take(0).filter(goes).map_values(f) =~= first);
    }
    for t in it: rest
        invariant
            it.seq() == all,
            n == it.index(),
            rs == rows(all),
            stays == other_task(ids@),
            goes == among(ids@),
            f == to_archive_row(now as int),
            rows(tasks@) == rs.take(n).filter(stays),
            archive_rows(archive@) == first + rs.take(n).filter(goes).map_values(f),
    {
        proof {
            lemma_filter_take(rs, stays, n);
            lemma_filter_take(rs, goes, n);
            assert(rs[n] == t@);
        }
        if has_id(ids, t.id) {
            let row: TaskArchive = TaskArchive { task: t, archived_at: now };
            proof {
                let old_rows = rs.take(n).filter(goes);
                assert(old_rows.push(rs[n]).map_values(f) =~= old_rows.map_values(f).push(row@));
                assert(archive_rows(archive@.push(row)) =~= archive_rows(archive@).push(row@));
                assert(first + old_rows.map_values(f).push(row@) =~= (first
                    + old_rows.map_values(f)).push(row@));
            }
            archive.push(row);
        } else {
            assert(rows(tasks@.push(t)) =~= rows(tasks@).push(t@));
            tasks.push(t);
        }
        proof {
            n = n + 1;
        }
    }
    assert(rs.take(n) =~= rs);
}

fn has_tasks(tasks: &Vec<Task>, batch: u128) -> (r: bool)
    ensures
        r == !(forall|i: int|
            0 <= i < rows(tasks@).len() ==> (#[trigger] rows(tasks@)[i]).batch_id != Some(batch)),
{
    let mut i: usize = 0;
    while i < tasks.len()
        invariant
            i <= tasks.len(),
            forall|k: int| 0 <= k < i ==> (#[trigger] rows(tasks@)[k]).batch_id != Some(batch),
        decreases tasks.len() - i,
    {
        assert(rows(tasks@)[i as int] == tasks@[i as int]@);
        if let Some(b) = tasks[i].batch_id {
            if b == batch {
                return true;
            }
        }
        i += 1;
    }
    false
}

/// The orphaned batches to sweep.
fn find_orphans(store: &Store, batch_size: i64) -> (r: Vec<u128>)
    requires
        batch_size >= 0,
    ensures
        r@ == orphans(store@, batch_size as int),
{
    let ghost all = store.batches@;
    let ghost p = orphan(store@);
    let ghost f = |b: Batch| b.id;
    let mut r: Vec<u128> = Vec::new();
    let mut i: usize = 0;
    proof {
        reveal(Seq::filter);
        assert(all.take(0).filter(p).map_values(f) =~= Seq::empty());
    }
    while i < store.batches.len()
        invariant
            i <= store.batches.len(),
            all == store.batches@,
            p == orphan(store@),
            f == (|b: Batch| b.id),
            r@ == all.take(i as int).filter(p).map_values(f),
        decreases store.batches.len() - i,
    {
        proof {
            lemma_filter_take(all, p, i as int);
            let sub = all.take(i as int).filter(p);
            assert(sub.push(all[i as int]).map_values(f) =~= sub.map_values(f).push(
                all[i as int].id,
            ));
        }
        let id: u128 = store.batches[i].id;
        if !has_tasks(&store.tasks, id) && !is_queued_for_batch(&store.outbox, id) {
            r.push(id);
        }
        i += 1;
    }
    assert(all.take(i as int) =~= all);
    let ghost found = r@;
    if (r.len() as u128) > (batch_size as u128) {
        r.truncate(batch_size as usize);
        assert(r@ =~= found.take(batch_size as int));
    }
    assert(r@ =~= first_n(found, batch_size as int));
    r
}

fn delete_batches(batches: &mut Vec<Batch>, ids: &Vec<u128>)
    ensures
        final(batches)@ == old(batches)@.filter(other_batch(ids@)),
{
    let ghost all = batches@;
    let ghost p = other_batch(ids@);
    let mut rest: Vec<Batch> = Vec::new();
    std::mem::swap(&mut rest, batches);
    let ghost mut n: int = 0;
    proof {
        reveal(Seq::filter);
        assert(all.take(0).filter(p) =~= Seq::empty());
    }
    for b in it: rest
        invariant
            it.seq() == all,
            n == it.index(),
            p == other_batch(ids@),
            batches@ == all.take(n).filter(p),
    {
        proof {
            lemma_filter_take(all, p, n);
        }
        if !has_id(ids, b.id) {
            batches.push(b);
        }
        proof {
            n = n + 1;
        }
    }
    assert(all.take(n) =~= all);
}

/// Archives tasks that ended at least `retention_days` ago, at most `batch_size`
/// of them, and sweeps batches that have no tasks left. Returns the number of
/// archived tasks; nothing changes where there is none to archive.
pub fn cleanup_old_terminal_tasks(
    store: &mut Store,
    retention_days: u32,
    batch_size: i64,
    now: i64,
) -> (r: usize)
    requires
        batch_size >= 0,
    ensures
        final(store)@ == cleaned(
            old(store)@,
            cutoff(now as int, retention_days as int),
            batch_size as int,
            now as int,
        ),
        r == to_archive(
            old(store)@,
            cutoff(now as int, retention_days as int),
            batch_size as int,
        ).len(),
{
    let ghost s = store@;
    let cut: i128 = now as i128 - retention_days as i128 * DAY_MICROS;
    let ids: Vec<u128> = find_archivable(store, cut, batch_size);
    if ids.len() == 0 {
        return 0;
    }
    delete_actions(&mut store.actions, &ids);
    delete_outbox(&mut store.outbox, &ids, true);
    delete_ledger(&mut store.ledger, &ids, true);
    delete_links(&mut store.links, &ids);
    move_to_archive(&mut store.tasks, &mut store.archive, &ids, now);
    let ghost t = archived(s, ids@, now as int);
    assert(store@ =~= t);
    let empty: Vec<u128> = find_orphans(store, batch_size);
    delete_outbox(&mut store.outbox, &empty, false);
    delete_ledger(&mut store.ledger, &empty, false);
    delete_batches(&mut store.batches, &empty);
    assert(store@ =~= swept(t, empty@));
    ids.len()
}

/// Predicates that agree on the elements select the same ones.
pub proof fn lemma_same_filter<A>(s: Seq<A>, p: spec_fn(A) -> bool, q: spec_fn(A) -> bool)
    requires
        forall|i: int| 0 <= i < s.len() ==> p(#[trigger] s[i]) == q(s[i]),
    ensures
        s.filter(p) == s.filter(q),
    decreases s.len(),
{
    reveal(Seq::filter);
    if s.len() > 0 {
        assert forall|i: int| 0 <= i < s.drop_last().len() implies p(
            #[trigger] s.drop_last()[i],
        ) == q(s.drop_last()[i]) by {
            assert(p(s[i]) == q(s[i]));
        }
        lemma_same_filter(s.drop_last(), p, q);
        assert(p(s[s.len() - 1]) == q(s[s.len() - 1]));
    }
}

// ---------------------------------------------------------------------------
// Slots and archive
// ---------------------------------------------------------------------------

/// Slots in use.
pub open spec fn in_use(s: SlotRow) -> bool {
    s.used != 0
}

/// Deletes the slots that are not in use. Returns how many there were.
pub fn gc_empty_rule_slots(slots: &mut Vec<RuleSlot>) -> (r: usize)
    ensures
        slot_rows(final(slots)@) == slot_rows(old(slots)@).filter(|s: SlotRow| in_use(s)),
        r == old(slots)@.len() - final(slots)@.len(),
{
    let ghost all = slots@;
    let ghost rs = slot_rows(all);
    let ghost p = |s: SlotRow| in_use(s);
    let before: usize = slots.len();
    let mut rest: Vec<RuleSlot> = Vec::new();
    std::mem::swap(&mut rest, slots);
    let ghost mut n: int = 0;
    proof {
        reveal(Seq::filter);
        assert(rs.take(0).filter(p) =~= slot_rows(slots@));
    }
    for s in it: rest
        invariant
            it.seq() == all,
            n == it.index(),
            rs == slot_rows(all),
            p == (|s: SlotRow| in_use(s)),
            slot_rows(slots@) == rs.take(n).filter(p),
            slots@.len() <= n,
    {
        proof {
            lemma_filter_take(rs, p, n);
            assert(rs[n] == s@);
        }
        if s.used != 0 {
            assert(slot_rows(slots@.push(s)) =~= slot_rows(slots@).push(s@));
            slots.push(s);
        }
        proof {
            n = n + 1;
        }
    }
    assert(rs.take(n) =~= rs);
    before - slots.len()
}

/// The archived tasks to purge: the first `n` archived by `cut`.
pub open spec fn to_purge(archive: Seq<ArchiveRow>, cut: int, n: int) -> Seq<u128> {
    first_n(
        archive.filter(|a: ArchiveRow| a.archived_at <= cut).map_values(
            |a: ArchiveRow| a.task.id,
        ),
        n,
    )
}

/// Purges tasks archived at least `archive_retention_days` ago, at most
/// `batch_size` of them. Returns how many.
pub fn purge_old_archived_tasks(
    archive: &mut Vec<TaskArchive>,
    archive_retention_days: u32,
    batch_size: i64,
    now: i64,
) -> (r: usize)
    requires
        batch_size >= 0,
    ensures
        ({
            let gone = to_purge(
                archive_rows(old(archive)@),
                cutoff(now as int, archive_retention_days as int),
                batch_size as int,
            );
            archive_rows(final(archive)@) == archive_rows(old(archive)@).filter(
                |a: ArchiveRow| !gone.contains(a.task.id),
            )
        }),
        r == old(archive)@.len() - final(archive)@.len(),
{
    let cut: i128 = now as i128 - archive_retention_days as i128 * DAY_MICROS;
    let ghost all = archive@;
    let ghost rs = archive_rows(all);
    let ghost old_enough = |a: ArchiveRow| a.archived_at <= cut;
    let ghost f = |a: ArchiveRow| a.task.id;
    let before: usize = archive.len();
    let mut ids: Vec<u128> = Vec::new();
    let mut i: usize = 0;
    proof {
        reveal(Seq::filter);
        assert(rs.take(0).filter(old_enough).map_values(f) =~= Seq::empty());
    }
    while i < archive.len()
        invariant
            i <= archive.len(),
            all == archive@,
            rs == archive_rows(all),
            old_enough == (|a: ArchiveRow| a.archived_at <= cut),
            f == (|a: ArchiveRow| a.task.id),
            ids@ == rs.take(i as int).filter(old_enough).map_values(f),
        decreases archive.len() - i,
    {
        proof {
            lemma_filter_take(rs, old_enough, i as int);
            assert(rs[i as int] == archive@[i as int]@);
            let sub = rs.take(i as int).filter(old_enough);
            assert(sub.push(rs[i as int]).map_values(f) =~= sub.map_values(f).push(
                rs[i as int].task.id,
            ));
        }
        if archive[i].archived_at as i128 <= cut {
            ids.push(archive[i].task.id);
        }
        i += 1;
    }
    assert(rs.take(i as int) =~= rs);
    let ghost found = ids@;
    if (ids.len() as u128) > (batch_size as u128) {
        ids.truncate(batch_size as usize);
        assert(ids@ =~= found.take(batch_size as int));
    }
    proof {
        lemma_same_filter(
            rs,
            old_enough,
            |a: ArchiveRow| a.archived_at <= cutoff(now as int, archive_retention_days as int),
        );
        assert(ids@ == to_purge(
            rs,
            cutoff(now as int, archive_retention_days as int),
            batch_size as int,
        ));
    }
    let ghost p = |a: ArchiveRow| !ids@.contains(a.task.id);
    let mut rest: Vec<TaskArchive> = Vec::new();
    std::mem::swap(&mut rest, archive);
    let ghost mut n: int = 0;
    proof {
        assert(rs.take(0).filter(p) =~= archive_rows(archive@));
    }
    for a in it: rest
        invariant
            it.seq() == all,
            n == it.index(),
            rs == archive_rows(all),
            p == (|a: ArchiveRow| !ids@.contains(a.task.id)),
            archive_rows(archive@) == rs.take(n).filter(p),
            archive@.len() <= n,
    {
        proof {
            lemma_filter_take(rs, p, n);
            assert(rs[n] == a@);
        }
        if !has_id(&ids, a.task.id) {
            assert(archive_rows(archive@.push(a)) =~= archive_rows(archive@).push(a@));
            archive.push(a);
        }
        proof {
            n = n + 1;
        }
    }
    assert(rs.take(n) =~= rs);
    before - archive.len()
}

} // verus!
