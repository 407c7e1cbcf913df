//! What retention takes away, and what it leaves.

use crate::config::RetentionConfig;
use crate::db::cleanup::{
    archivable, archived, awaited, cleaned, cutoff, ended_key, in_use, orphan, orphans,
    queued_for_batch, queued_for_task, to_archive, to_archive_row, to_purge,
};
use crate::db::cleanup_laws::cleanup_keeps_queue;
use crate::db::listing_laws::lemma_sorted_where;
use crate::db::task_query::sorted_where;
use crate::models::{Action, ArchiveRow, Batch, LedgerRow, Link, OnComplete, SlotRow, TaskRow};
use crate::order::{first_n, key_le};
use crate::store::Tables;
use crate::tally::{count, lemma_filter_count, lemma_filter_has};
use crate::workers::propagation::unique_ids;
use crate::workers::retention::{after_retention, purges, retained};
use crate::workers::spread_laws::is_end;
use vstd::prelude::*;

verus! {

/// A number of days before an instant.
pub open spec fn days_ago(now: int, days: int) -> int {
    now - days * 24 * 60 * 60 * 1_000_000
}

/// A batch that still waits for its tasks before it tells of its completion.
pub open spec fn still_waits(b: Batch) -> bool {
    b.remaining > 0 && match b.on_complete {
        OnComplete::Actions(v) => v@.len() > 0,
        OnComplete::Malformed { items, .. } => items > 0,
    }
}

/// A task that is done with: it ended long enough ago, nothing of it or of its batch is
/// left to deliver, and its batch does not wait any more.
pub open spec fn is_done_with(s: Tables, t: TaskRow, cut: int) -> bool {
    &&& is_end(t.status)
    &&& t.ended_at is Some
    &&& t.ended_at->0 <= cut
    &&& forall|j: int| 0 <= j < s.outbox.len() ==> (#[trigger] s.outbox[j]).task_id != Some(t.id)
    &&& t.batch_id is Some ==> forall|j: int|
        0 <= j < s.outbox.len() ==> (#[trigger] s.outbox[j]).batch_id != t.batch_id
    &&& t.batch_id is Some ==> forall|j: int|
        0 <= j < s.batches.len() && (#[trigger] s.batches[j]).id == t.batch_id->0 ==> !still_waits(
            s.batches[j],
        )
}

/// A task of this identifier is done with.
pub open spec fn one_done_with(s: Tables, id: u128, cut: int) -> bool {
    exists|i: int|
        0 <= i < s.tasks.len() && #[trigger] s.tasks[i].id == id && is_done_with(s, s.tasks[i], cut)
}

proof fn lemma_done_with(s: Tables, t: TaskRow, cut: int)
    ensures
        archivable(s, cut)(t) == is_done_with(s, t, cut),
{
    if is_done_with(s, t, cut) {
        assert(!queued_for_task(s.outbox, t.id));
        if t.batch_id is Some {
            assert(!queued_for_batch(s.outbox, t.batch_id->0));
            assert(!awaited(s.batches, t.batch_id->0));
        }
    }
    if archivable(s, cut)(t) {
        assert forall|j: int| 0 <= j < s.outbox.len() implies (
        #[trigger] s.outbox[j]).task_id != Some(t.id) by {}
        if t.batch_id is Some {
            assert forall|j: int| 0 <= j < s.outbox.len() implies (
            #[trigger] s.outbox[j]).batch_id != t.batch_id by {}
            assert forall|j: int|
                0 <= j < s.batches.len() && (#[trigger] s.batches[j]).id
                    == t.batch_id->0 implies !still_waits(s.batches[j]) by {}
        }
    }
}

/// What retention archives is done with: it ended at least the given number of days ago.
/// It takes no more than it may, those that ended first; while there is room it leaves
/// none that is done with.
pub proof fn only_what_is_done_with_is_archived(s: Tables, days: int, n: int, now: int)
    requires
        n >= 0,
        forall|i: int|
            0 <= i < s.tasks.len() && (#[trigger] s.tasks[i]).ended_at is Some ==> i64::MIN
                <= s.tasks[i].ended_at->0 <= i64::MAX,
    ensures
        ({
            let ids = to_archive(s, cutoff(now, days), n);
            &&& ids.len() <= n
            &&& forall|k: int|
                0 <= k < ids.len() ==> one_done_with(s, #[trigger] ids[k], days_ago(now, days))
            &&& ids.len() < n ==> forall|i: int|
                0 <= i < s.tasks.len() && is_done_with(
                    s,
                    #[trigger] s.tasks[i],
                    days_ago(now, days),
                ) ==> ids.contains(s.tasks[i].id)
            &&& forall|i: int, j: int|
                #![trigger s.tasks[i], s.tasks[j]]
                0 <= i < s.tasks.len() && 0 <= j < s.tasks.len() && is_done_with(
                    s,
                    s.tasks[i],
                    days_ago(now, days),
                ) && is_done_with(s, s.tasks[j], days_ago(now, days)) && ids.contains(
                    s.tasks[j].id,
                ) && unique_ids(s.tasks) && !ids.contains(s.tasks[i].id) ==> s.tasks[j].ended_at->0
                    <= s.tasks[i].ended_at->0
        }),
{
    let cut = cutoff(now, days);
    assert(cut == days_ago(now, days));
    let p = archivable(s, cut);
    let key = |t: TaskRow| ended_key(t);
    let all = sorted_where(s.tasks, p, key);
    let all_ids = all.map_values(|t: TaskRow| t.id);
    let ids = to_archive(s, cut, n);
    lemma_sorted_where(s.tasks, p, key);
    assert(forall|k: int| 0 <= k < ids.len() ==> #[trigger] ids[k] == all[k].id);
    assert forall|k: int| 0 <= k < ids.len() implies one_done_with(
        s,
        #[trigger] ids[k],
        days_ago(now, days),
    ) by {
        assert(all.contains(all[k]));
        let i = choose|i: int| 0 <= i < s.tasks.len() && s.tasks[i] == all[k];
        lemma_done_with(s, s.tasks[i], cut);
        assert(s.tasks[i].id == ids[k]);
    }
    assert forall|i: int|
        0 <= i < s.tasks.len() && is_done_with(
            s,
            #[trigger] s.tasks[i],
            days_ago(now, days),
        ) implies exists|k: int| 0 <= k < all.len() && #[trigger] all[k] == s.tasks[i] by {
        lemma_done_with(s, s.tasks[i], cut);
        assert(s.tasks.contains(s.tasks[i]));
        assert(all.contains(s.tasks[i]));
    }
    assert forall|i: int|
        ids.len() < n && 0 <= i < s.tasks.len() && is_done_with(
            s,
            #[trigger] s.tasks[i],
            days_ago(now, days),
        ) implies ids.contains(s.tasks[i].id) by {
        let k = choose|k: int| 0 <= k < all.len() && #[trigger] all[k] == s.tasks[i];
        assert(ids[k] == s.tasks[i].id);
    }
    assert forall|i: int, j: int|
        #![trigger s.tasks[i], s.tasks[j]]
        0 <= i < s.tasks.len() && 0 <= j < s.tasks.len() && is_done_with(
            s,
            s.tasks[i],
            days_ago(now, days),
        ) && is_done_with(s, s.tasks[j], days_ago(now, days)) && ids.contains(s.tasks[j].id)
            && unique_ids(s.tasks) && !ids.contains(s.tasks[i].id) implies s.tasks[j].ended_at->0
        <= s.tasks[i].ended_at->0 by {
        let a = choose|a: int| 0 <= a < all.len() && #[trigger] all[a] == s.tasks[i];
        let b = choose|b: int| 0 <= b < ids.len() && ids[b] == s.tasks[j].id;
        assert(all.contains(all[b]));
        let m = choose|m: int| 0 <= m < s.tasks.len() && s.tasks[m] == all[b];
        assert(s.tasks[m].id == s.tasks[j].id);
        assert(m == j);
        if a < ids.len() {
            assert(ids[a] == s.tasks[i].id);
        }
        assert(b < a);
        assert(key_le(key(all[b]), key(all[a])));
    }
}

/// A task that retention takes away was done with; it goes to the archive with the time,
/// and so do its actions, links and records go. A task that stays keeps them.
pub proof fn records_go_with_their_task(
    s: Tables,
    days: int,
    n: int,
    now: int,
    t: TaskRow,
    a: Action,
    l: Link,
    r: LedgerRow,
    b: Batch,
)
    requires
        n >= 0,
    ensures
        ({
            let ids = to_archive(s, cutoff(now, days), n);
            let f = cleaned(s, cutoff(now, days), n, now);
            &&& f.tasks.contains(t) <==> s.tasks.contains(t) && !ids.contains(t.id)
            &&& f.actions.contains(a) <==> s.actions.contains(a) && !ids.contains(a.task_id)
            &&& f.links.contains(l) <==> s.links.contains(l) && !ids.contains(l.parent_id)
                && !ids.contains(l.child_id)
            &&& f.ledger.contains(r) ==> s.ledger.contains(r) && (r.task_id is Some
                ==> !ids.contains(r.task_id->0))
            &&& s.ledger.contains(r) && (r.task_id is Some ==> !ids.contains(r.task_id->0))
                && r.batch_id is None ==> f.ledger.contains(r)
            &&& f.batches.contains(b) ==> s.batches.contains(b)
            &&& s.batches.contains(b) && !f.batches.contains(b) ==> {
                &&& forall|k: int|
                    0 <= k < f.tasks.len() ==> (#[trigger] f.tasks[k]).batch_id != Some(b.id)
                &&& forall|k: int|
                    0 <= k < s.outbox.len() ==> (#[trigger] s.outbox[k]).batch_id != Some(b.id)
            }
            &&& f.outbox == s.outbox
            &&& f.slots == s.slots
            &&& f.archive.len() >= s.archive.len()
            &&& forall|k: int| 0 <= k < s.archive.len() ==> f.archive[k] == s.archive[k]
            &&& forall|k: int|
                s.archive.len() <= k < f.archive.len() ==> (#[trigger] f.archive[k]).archived_at
                    == now && s.tasks.contains(f.archive[k].task) && ids.contains(
                    f.archive[k].task.id,
                )
        }),
{
    let cut = cutoff(now, days);
    let ids = to_archive(s, cut, n);
    let f = cleaned(s, cut, n, now);
    cleanup_keeps_queue(s, cut, n, now);
    if ids.len() > 0 {
        let m = archived(s, ids, now);
        let gone = orphans(m, n);
        lemma_filter_has(s.tasks, crate::db::cleanup::other_task(ids), t);
        lemma_filter_has(s.actions, crate::db::cleanup::other_action(ids), a);
        lemma_filter_has(s.links, crate::db::cleanup::other_link(ids), l);
        lemma_filter_has(s.ledger, crate::db::cleanup::other_record(ids, true), r);
        lemma_filter_has(m.ledger, crate::db::cleanup::other_record(gone, false), r);
        lemma_filter_has(m.batches, crate::db::cleanup::other_batch(gone), b);
        let kept = crate::db::cleanup::among(ids);
        let moved = s.tasks.filter(kept).map_values(to_archive_row(now));
        assert(f.archive == s.archive + moved);
        assert forall|k: int| s.archive.len() <= k < f.archive.len() implies (
        #[trigger] f.archive[k]).archived_at == now && s.tasks.contains(f.archive[k].task)
            && ids.contains(f.archive[k].task.id) by {
            let x = s.tasks.filter(kept)[k - s.archive.len()];
            assert(f.archive[k] == to_archive_row(now)(x));
            assert(s.tasks.filter(kept).contains(x));
            lemma_filter_has(s.tasks, kept, x);
        }
        if s.batches.contains(b) && !f.batches.contains(b) {
            let all = m.batches.filter(orphan(m));
            let k = choose|k: int| 0 <= k < gone.len() && gone[k] == b.id;
            assert(gone[k] == all[k].id);
            assert(all.contains(all[k]));
            lemma_filter_has(m.batches, orphan(m), all[k]);
            assert(orphan(m)(all[k]));
            assert forall|j: int| 0 <= j < s.outbox.len() implies (
            #[trigger] s.outbox[j]).batch_id != Some(b.id) by {
                let x = s.outbox[j];
                assert(f.outbox[j] == x);
                assert(f.outbox.contains(x));
                lemma_filter_has(m.outbox, crate::db::cleanup::other_delivery(gone, false), x);
                let w = choose|w: int| 0 <= w < m.outbox.len() && m.outbox[w] == x;
                assert(!queued_for_batch(m.outbox, all[k].id));
                assert(m.outbox[w].batch_id != Some(all[k].id));
            }
        }
    }
}

/// Retention archives only where it is enabled. What is purged from the archive was there
/// for at least the given number of days; nothing is, where that is zero. Slots go if and
/// only if nothing of them is in use.
pub proof fn retention_follows_its_settings(
    s: Tables,
    cfg: RetentionConfig,
    now: int,
    k: int,
    x: SlotRow,
)
    requires
        cfg.batch_size >= 0,
        0 <= k < retained(s, cfg, now).archive.len(),
    ensures
        ({
            let m = retained(s, cfg, now);
            let f = after_retention(s, cfg, now);
            let a = m.archive[k];
            let old = |y: ArchiveRow|
                y.archived_at <= days_ago(now, cfg.archive_retention_days as int);
            &&& m == if cfg.enabled {
                cleaned(
                    s,
                    days_ago(now, cfg.retention_days as int),
                    cfg.batch_size as int,
                    now,
                )
            } else {
                s
            }
            &&& f == (Tables { archive: f.archive, slots: f.slots, ..m })
            &&& !cfg.enabled || cfg.archive_retention_days == 0 ==> f.archive == m.archive
            &&& !f.archive.contains(a) ==> exists|j: int|
                0 <= j < m.archive.len() && m.archive[j].task.id == a.task.id && old(
                    #[trigger] m.archive[j],
                )
            &&& cfg.enabled && cfg.archive_retention_days > 0 && count(m.archive, old)
                <= cfg.batch_size && old(a) ==> !f.archive.contains(a)
            &&& f.slots.contains(x) <==> s.slots.contains(x) && x.used != 0
        }),
{
    let m = retained(s, cfg, now);
    let f = after_retention(s, cfg, now);
    let a = m.archive[k];
    let cut = cutoff(now, cfg.archive_retention_days as int);
    let n = cfg.batch_size as int;
    assert(cut == days_ago(now, cfg.archive_retention_days as int));
    assert(cutoff(now, cfg.retention_days as int) == days_ago(now, cfg.retention_days as int));
    let old = |y: ArchiveRow| y.archived_at <= days_ago(now, cfg.archive_retention_days as int);
    let p = |y: ArchiveRow| y.archived_at <= cut;
    lemma_filter_has(m.slots, |y: SlotRow| in_use(y), x);
    assert(m.archive.contains(a));
    if purges(cfg) {
        let gone = to_purge(m.archive, cut, n);
        let sel = m.archive.filter(p);
        let sel_ids = sel.map_values(|y: ArchiveRow| y.task.id);
        assert(gone == first_n(sel_ids, n));
        lemma_filter_has(m.archive, |y: ArchiveRow| !gone.contains(y.task.id), a);
        lemma_filter_count(m.archive, p, old);
        if !f.archive.contains(a) {
            let g = choose|g: int| 0 <= g < gone.len() && gone[g] == a.task.id;
            assert(sel[g].task.id == a.task.id);
            assert(sel.contains(sel[g]));
            lemma_filter_has(m.archive, p, sel[g]);
            let j = choose|j: int| 0 <= j < m.archive.len() && m.archive[j] == sel[g];
            assert(old(m.archive[j]));
        }
        if old(a) && count(m.archive, old) <= n {
            lemma_filter_has(m.archive, p, a);
            let g = choose|g: int| 0 <= g < sel.len() && sel[g] == a;
            assert(gone[g] == a.task.id);
        }
    }
}

} // verus!
