//! What becomes of the progress that workers report.

use crate::models::{SlotRow, TaskRow};
use crate::tally::{count, lemma_count_zero};
use crate::text::begins_with;
use crate::workers::batch_updater::{
    bumped, counts_of, distinct_updates, lists_counts, nonzero, zeroed, Update,
};
use crate::workers::counter_flush::{
    capacity_held, charged, counted_row, failed_updates, flushed_tasks, holds_capacity, shrunk_row,
    sums_fit, update_ids, update_of, updates_row, widened,
};
use crate::workers::spread_laws::is_end;
use vstd::prelude::*;

verus! {

/// A counter that was raised, as far as its column goes.
pub open spec fn raised(from: int, by: int) -> int {
    if from + by <= i32::MAX {
        from + by
    } else {
        i32::MAX as int
    }
}

proof fn lemma_update_of(updates: Seq<Update>, id: u128)
    ensures
        match update_of(updates, id) {
            Some(v) => exists|k: int|
                0 <= k < updates.len() && (#[trigger] updates[k]).0 == id && v == (
                    updates[k].1 as int,
                    updates[k].2 as int,
                ),
            None => forall|k: int| 0 <= k < updates.len() ==> (#[trigger] updates[k]).0 != id,
        },
    decreases updates.len(),
{
    if updates.len() > 0 {
        let init = updates.drop_last();
        let n = updates.len() - 1;
        assert(updates[n] == updates.last());
        lemma_update_of(init, id);
        if updates.last().0 != id {
            match update_of(init, id) {
                Some(v) => {
                    let k = choose|k: int|
                        0 <= k < init.len() && (#[trigger] init[k]).0 == id && v == (
                            init[k].1 as int,
                            init[k].2 as int,
                        );
                    assert(updates[k] == init[k]);
                },
                None => {
                    assert forall|k: int| 0 <= k < updates.len() implies (
                    #[trigger] updates[k]).0 != id by {
                        if k < n {
                            assert(init[k] == updates[k]);
                        }
                    }
                },
            }
        }
    }
}

/// Progress is added to the task that it was reported for, while it goes on, up to what
/// a counter holds, and counts as activity. A task that has ended keeps its counters, and
/// so does one that nothing was reported for.
pub proof fn progress_is_added_up(
    tasks: Seq<TaskRow>,
    slots: Seq<SlotRow>,
    updates: Seq<Update>,
    now: int,
    i: int,
)
    requires
        distinct_updates(updates),
        0 <= i < tasks.len(),
    ensures
        ({
            let a = flushed_tasks(tasks, slots, updates, now)[i];
            let r = tasks[i];
            &&& flushed_tasks(tasks, slots, updates, now).len() == tasks.len()
            &&& is_end(r.status) || (forall|k: int|
                0 <= k < updates.len() ==> (#[trigger] updates[k]).0 != r.id) ==> a == (TaskRow {
                capacity_charge: a.capacity_charge,
                ..r
            })
            &&& forall|k: int|
                0 <= k < updates.len() && (#[trigger] updates[k]).0 == r.id && !is_end(r.status)
                    ==> a == (TaskRow {
                    success: raised(r.success, updates[k].1 as int),
                    failures: raised(r.failures, updates[k].2 as int),
                    last_updated: now,
                    capacity_charge: a.capacity_charge,
                    ..r
                })
        }),
{
    let r = tasks[i];
    lemma_update_of(updates, r.id);
    let t = tasks.map_values(counted_row(updates, now));
    assert(t[i] == counted_row(updates, now)(r));
    if capacity_held(tasks, slots, update_ids(updates)) {
        assert(t.map_values(shrunk_row(update_ids(updates)))[i] == shrunk_row(update_ids(updates))(
            t[i],
        ));
    }
    assert forall|k: int|
        0 <= k < updates.len() && (#[trigger] updates[k]).0 == r.id && !is_end(
            r.status,
        ) implies update_of(updates, r.id) == Some((updates[k].1 as int, updates[k].2 as int)) by {
        let v = update_of(updates, r.id)->0;
        let m = choose|m: int|
            0 <= m < updates.len() && (#[trigger] updates[m]).0 == r.id && v == (
                updates[m].1 as int,
                updates[m].2 as int,
            );
        if m < k {
            assert(updates[m].0 != updates[k].0);
        } else if k < m {
            assert(updates[k].0 != updates[m].0);
        }
    }
}

/// A task that may give back something of a slot: a capacity slot that it holds, for which
/// it is charged, while its progress is reported.
pub open spec fn frees(t: TaskRow, slot: SlotRow, updates: Seq<Update>) -> bool {
    &&& exists|k: int| 0 <= k < updates.len() && (#[trigger] updates[k]).0 == t.id
    &&& t.capacity_charge is Some && t.capacity_charge->0 > 0
    &&& begins_with(slot.key, "cap:"@)
    &&& t.slot_keys is Some && (t.slot_keys->0).contains(slot.key)
}

/// A task that holds a capacity slot and reports progress is charged what it has left to
/// do, or what it was charged before where that is less. One without a report, or without
/// a charge, keeps what it has, and so do all where none of them may give anything back.
pub proof fn progress_frees_capacity(
    tasks: Seq<TaskRow>,
    slots: Seq<SlotRow>,
    updates: Seq<Update>,
    now: int,
    i: int,
)
    requires
        0 <= i < tasks.len(),
    ensures
        ({
            let a = flushed_tasks(tasks, slots, updates, now)[i];
            let r = tasks[i];
            let left = match r.expected_count {
                Some(e) => e,
                None => 0,
            } - a.success - a.failures;
            &&& r.capacity_charge is None ==> a.capacity_charge is None
            &&& r.capacity_charge is Some && r.capacity_charge->0 <= 0 ==> a.capacity_charge
                == r.capacity_charge
            &&& (forall|k: int| 0 <= k < updates.len() ==> (#[trigger] updates[k]).0 != r.id)
                ==> a.capacity_charge == r.capacity_charge
            &&& (exists|k: int| 0 <= k < updates.len() && (#[trigger] updates[k]).0 == r.id)
                && r.capacity_charge is Some && r.capacity_charge->0 > 0 && r.slot_keys is Some && (
            exists|j: int|
                0 <= j < slots.len() && begins_with((#[trigger] slots[j]).key, "cap:"@) && (
                r.slot_keys->0).contains(slots[j].key)) ==> a.capacity_charge == Some(
                if left <= 0 {
                    0
                } else if left < r.capacity_charge->0 {
                    left
                } else {
                    r.capacity_charge->0
                },
            )
            &&& (forall|m: int, j: int|
                #![trigger tasks[m], slots[j]]
                0 <= m < tasks.len() && 0 <= j < slots.len() ==> !frees(
                    tasks[m],
                    slots[j],
                    updates,
                )) ==> a.capacity_charge == r.capacity_charge
        }),
{
    let r = tasks[i];
    let ids = update_ids(updates);
    let t = tasks.map_values(counted_row(updates, now));
    assert(t[i] == counted_row(updates, now)(r));
    assert(ids.contains(r.id) <==> exists|k: int|
        0 <= k < updates.len() && (#[trigger] updates[k]).0 == r.id) by {
        if ids.contains(r.id) {
            let k = choose|k: int| 0 <= k < ids.len() && ids[k] == r.id;
            assert(updates[k].0 == r.id);
        }
        if exists|k: int| 0 <= k < updates.len() && (#[trigger] updates[k]).0 == r.id {
            let k = choose|k: int| 0 <= k < updates.len() && (#[trigger] updates[k]).0 == r.id;
            assert(ids[k] == r.id);
        }
    }
    if ids.contains(r.id) && r.capacity_charge is Some && r.capacity_charge->0 > 0
        && r.slot_keys is Some && exists|j: int|
        0 <= j < slots.len() && begins_with((#[trigger] slots[j]).key, "cap:"@) && (
        r.slot_keys->0).contains(slots[j].key) {
        let j = choose|j: int|
            0 <= j < slots.len() && begins_with((#[trigger] slots[j]).key, "cap:"@) && (
            r.slot_keys->0).contains(slots[j].key);
        let p = holds_capacity(ids, slots[j].key);
        assert(p(tasks[i]));
        lemma_count_zero(tasks, p);
        assert(count(tasks, p) > 0);
        assert(capacity_held(tasks, slots, ids));
    }
    if capacity_held(tasks, slots, ids) {
        assert(t.map_values(shrunk_row(ids))[i] == shrunk_row(ids)(t[i]));
        let j = choose|j: int|
            0 <= j < slots.len() && count(
                tasks,
                holds_capacity(ids, (#[trigger] slots[j]).key),
            ) > 0;
        let p = holds_capacity(ids, slots[j].key);
        lemma_count_zero(tasks, p);
        let m = choose|m: int| 0 <= m < tasks.len() && #[trigger] p(tasks[m]);
        let k = choose|k: int| 0 <= k < ids.len() && ids[k] == tasks[m].id;
        assert(updates[k].0 == tasks[m].id);
        assert(frees(tasks[m], slots[j], updates));
    }
}

/// A flush is refused if and only if a counter of a task that goes on would leave the
/// range in which sums are taken.
pub proof fn only_overflows_are_refused(tasks: Seq<TaskRow>, updates: Seq<Update>)
    requires
        distinct_updates(updates),
    ensures
        !sums_fit(tasks, updates) <==> exists|i: int, k: int|
            #![trigger tasks[i], updates[k]]
            0 <= i < tasks.len() && 0 <= k < updates.len() && tasks[i].id == updates[k].0
                && !is_end(tasks[i].status) && (tasks[i].success + updates[k].1 < i32::MIN
                || tasks[i].success + updates[k].1 > i64::MAX || tasks[i].failures + updates[k].2
                < i32::MIN || tasks[i].failures + updates[k].2 > i64::MAX),
{
    if !sums_fit(tasks, updates) {
        let i = choose|i: int|
            0 <= i < tasks.len() && updates_row(updates)(#[trigger] tasks[i]) && !(
            crate::workers::counter_flush::sum_fits(
                tasks[i].success + (update_of(updates, tasks[i].id)->0).0,
            ) && crate::workers::counter_flush::sum_fits(
                tasks[i].failures + (update_of(updates, tasks[i].id)->0).1,
            ));
        lemma_update_of(updates, tasks[i].id);
        let v = update_of(updates, tasks[i].id)->0;
        let k = choose|k: int|
            0 <= k < updates.len() && (#[trigger] updates[k]).0 == tasks[i].id && v == (
                updates[k].1 as int,
                updates[k].2 as int,
            );
        assert(tasks[i].id == updates[k].0);
    }
    assert forall|i: int, k: int|
        #![trigger tasks[i], updates[k]]
        0 <= i < tasks.len() && 0 <= k < updates.len() && tasks[i].id == updates[k].0 && !is_end(
            tasks[i].status,
        ) && (tasks[i].success + updates[k].1 < i32::MIN || tasks[i].success + updates[k].1
            > i64::MAX || tasks[i].failures + updates[k].2 < i32::MIN || tasks[i].failures
            + updates[k].2 > i64::MAX) implies !sums_fit(tasks, updates) by {
        lemma_update_of(updates, tasks[i].id);
        let v = update_of(updates, tasks[i].id)->0;
        let m = choose|m: int|
            0 <= m < updates.len() && (#[trigger] updates[m]).0 == tasks[i].id && v == (
                updates[m].1 as int,
                updates[m].2 as int,
            );
        if m < k {
            assert(updates[m].0 != updates[k].0);
        } else if k < m {
            assert(updates[k].0 != updates[m].0);
        }
        assert(updates_row(updates)(tasks[i]));
    }
}

/// What is reported waits in sums, one per task, until it is taken out. Taking it out
/// leaves nothing, and hands out what there was for each task.
pub proof fn reports_wait_in_sums(
    m: Map<u128, (i64, i64)>,
    u: Update,
    id: u128,
    taken: Seq<Update>,
)
    requires
        i64::MIN <= counts_of(m, u.0).0 + u.1 <= i64::MAX,
        i64::MIN <= counts_of(m, u.0).1 + u.2 <= i64::MAX,
        lists_counts(m, taken),
    ensures
        id != u.0 ==> counts_of(bumped(m, u), id) == counts_of(m, id),
        counts_of(bumped(m, u), u.0).0 == counts_of(m, u.0).0 + u.1,
        counts_of(bumped(m, u), u.0).1 == counts_of(m, u.0).1 + u.2,
        counts_of(zeroed(m), id) == (0i64, 0i64),
        forall|k: int|
            0 <= k < taken.len() ==> counts_of(m, (#[trigger] taken[k]).0) == (
                taken[k].1,
                taken[k].2,
            ) && (taken[k].1 != 0 || taken[k].2 != 0),
        counts_of(m, id) != (0i64, 0i64) ==> exists|k: int|
            0 <= k < taken.len() && (#[trigger] taken[k]).0 == id,
        nonzero((u.1, u.2)) <==> !(u.1 == 0 && u.2 == 0),
{
    if counts_of(m, id) != (0i64, 0i64) {
        assert(m.dom().contains(id));
        assert(nonzero(m[id]));
    }
}

/// Of the updates that were applied one by one, those that failed are kept, as they are
/// and in their order, and no others. A report in smaller numbers keeps its values.
pub proof fn failed_reports_are_kept(
    updates: Seq<Update>,
    applied: Seq<bool>,
    small: Seq<(u128, i32, i32)>,
)
    requires
        applied.len() == updates.len(),
    ensures
        failed_updates(updates, applied).len() == count(applied, |b: bool| !b),
        forall|k: int|
            0 <= k < updates.len() && !#[trigger] applied[k] ==> failed_updates(
                updates,
                applied,
            ).contains(updates[k]),
        forall|u: Update| #[trigger]
            failed_updates(updates, applied).contains(u) ==> exists|k: int|
                0 <= k < updates.len() && #[trigger] updates[k] == u && !applied[k],
        widened(small).len() == small.len(),
        forall|k: int|
            0 <= k < small.len() ==> (#[trigger] widened(small)[k]).0 == small[k].0 && widened(
                small,
            )[k].1 == small[k].1 && widened(small)[k].2 == small[k].2,
{
    lemma_failed(updates, applied, updates.len() as int);
    assert(updates.take(updates.len() as int) =~= updates);
    assert(applied.take(updates.len() as int) =~= applied);
}

proof fn lemma_failed(updates: Seq<Update>, applied: Seq<bool>, n: int)
    requires
        applied.len() == updates.len(),
        0 <= n <= updates.len(),
    ensures
        ({
            let f = failed_updates(updates.take(n), applied);
            &&& f.len() == count(applied.take(n), |b: bool| !b)
            &&& forall|k: int| 0 <= k < n && !#[trigger] applied[k] ==> f.contains(updates[k])
            &&& forall|u: Update| #[trigger]
                f.contains(u) ==> exists|k: int|
                    0 <= k < n && #[trigger] updates[k] == u && !applied[k]
        }),
    decreases n,
{
    if n > 0 {
        lemma_failed(updates, applied, n - 1);
        let f = failed_updates(updates.take(n - 1), applied);
        let g = failed_updates(updates.take(n), applied);
        assert(updates.take(n).drop_last() =~= updates.take(n - 1));
        assert(applied.take(n).drop_last() =~= applied.take(n - 1));
        assert(updates.take(n).last() == updates[n - 1]);
        assert forall|k: int| 0 <= k < n && !#[trigger] applied[k] implies g.contains(
            updates[k],
        ) by {
            if k < n - 1 {
                assert(f.contains(updates[k]));
                let j = choose|j: int| 0 <= j < f.len() && f[j] == updates[k];
                assert(g[j] == updates[k]);
            } else {
                assert(g[g.len() - 1] == updates[k]);
            }
        }
        assert forall|u: Update| #[trigger] g.contains(u) implies exists|k: int|
            0 <= k < n && #[trigger] updates[k] == u && !applied[k] by {
            let j = choose|j: int| 0 <= j < g.len() && g[j] == u;
            if j < f.len() {
                assert(f[j] == u);
                assert(f.contains(u));
                let k = choose|k: int|
                    0 <= k < n - 1 && #[trigger] updates[k] == u && !applied[k];
                assert(updates[k] == u);
            } else {
                assert(updates[n - 1] == u);
            }
        }
    }
}

} // verus!
